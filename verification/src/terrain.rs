//! Heightmap terrain: the samples of one heightfield, the file it is kept in, and
//! the one terrain a program has loaded.
use crate::bytes;
use crate::bytes::{put_le32, rd_le32};
use vstd::arithmetic::power2::*;
use vstd::prelude::*;

verus! {

/// A square of height samples. Lengths and heights are held as the bits of 32-bit
/// floats.
pub struct Heightfield {
    /// Samples per side.
    pub dim: u32,
    /// World units between samples.
    pub spacing: u32,
    /// World X of sample column 0.
    pub origin_x: u32,
    /// World Z of sample row 0.
    pub origin_z: u32,
    /// Row by row.
    pub heights: Vec<u32>,
}

/// Why a heightfield cannot be had.
#[derive(Clone, Copy, PartialEq, Eq, Structural, Debug)]
pub enum TerrainError {
    /// No side length of a terrain: it is `2^k + 1`, from 5 to 4097.
    Dim,
    /// Samples are not a positive distance apart.
    Spacing,
    /// Not one height per sample.
    Count,
    /// Too short for a header.
    Short,
    /// Not a terrain file.
    Magic,
    /// Not as long as its header says.
    Size,
}

/// A side length that tiles.
pub open spec fn tiles(dim: int) -> bool {
    dim == 5 || dim == 9 || dim == 17 || dim == 33 || dim == 65 || dim == 129 || dim == 257 || dim
        == 513 || dim == 1025 || dim == 2049 || dim == 4097
}

/// Bits of a number above nothing.
pub open spec fn positive(bits: u32) -> bool {
    0 < bits <= 0x7F80_0000
}

fn can_tile(dim: u32) -> (r: bool)
    ensures
        r == tiles(dim as int),
{
    dim == 5 || dim == 9 || dim == 17 || dim == 33 || dim == 65 || dim == 129 || dim == 257 || dim
        == 513 || dim == 1025 || dim == 2049 || dim == 4097
}

/// What a heightfield is made of.
pub type Parts = (u32, u32, u32, u32, Seq<u32>);

/// What is wrong with parts, if anything, in the order it is looked for.
pub open spec fn flaw(p: Parts) -> Option<TerrainError> {
    if !tiles(p.0 as int) {
        Some(TerrainError::Dim)
    } else if !positive(p.1) {
        Some(TerrainError::Spacing)
    } else if p.4.len() != p.0 * p.0 {
        Some(TerrainError::Count)
    } else {
        None
    }
}

/// Heights one after the other.
pub open spec fn height_bytes(h: Seq<u32>, n: int) -> Seq<u8>
    decreases n,
{
    if n <= 0 {
        Seq::empty()
    } else {
        height_bytes(h, n - 1) + bytes::le32(h[n - 1])
    }
}

/// The file's first eight bytes.
pub open spec fn magic() -> Seq<u8> {
    seq![0x41u8, 0x55, 0x52, 0x54, 0x45, 0x52, 0x52, 0x31]
}

/// A heightfield's file: the magic, the header and the heights, least significant
/// byte first.
pub open spec fn file_of(p: Parts) -> Seq<u8> {
    magic() + bytes::le32(p.0) + bytes::le32(p.1) + bytes::le32(p.2) + bytes::le32(p.3)
        + height_bytes(p.4, p.4.len() as int)
}

/// What a file says.
pub open spec fn read_file(b: Seq<u8>) -> Result<Parts, TerrainError> {
    if b.len() < 24 {
        Err(TerrainError::Short)
    } else if b.subrange(0, 8) != magic() {
        Err(TerrainError::Magic)
    } else if !tiles(bytes::le32_at(b, 8) as int) {
        Err(TerrainError::Dim)
    } else if !positive(bytes::le32_at(b, 12)) {
        Err(TerrainError::Spacing)
    } else if b.len() != 24 + bytes::le32_at(b, 8) * bytes::le32_at(b, 8) * 4 {
        Err(TerrainError::Size)
    } else {
        Ok(
            (
                bytes::le32_at(b, 8),
                bytes::le32_at(b, 12),
                bytes::le32_at(b, 16),
                bytes::le32_at(b, 20),
                Seq::new(
                    (bytes::le32_at(b, 8) * bytes::le32_at(b, 8)) as nat,
                    |i: int| bytes::le32_at(b, 24 + 4 * i),
                ),
            ),
        )
    }
}

proof fn lemma_square(d: int)
    requires
        tiles(d),
    ensures
        25 <= d * d <= 16785409,
{
    assert(5 * 5 <= d * d <= 4097 * 4097) by (nonlinear_arith)
        requires
            5 <= d <= 4097,
    ;
}

impl Heightfield {
    pub open spec fn parts(self) -> Parts {
        (self.dim, self.spacing, self.origin_x, self.origin_z, self.heights@)
    }

    pub open spec fn wf(self) -> bool {
        flaw(self.parts()) is None
    }

    pub fn new(
        dim: u32,
        spacing: u32,
        origin_x: u32,
        origin_z: u32,
        heights: Vec<u32>,
    ) -> (r: Result<Heightfield, TerrainError>)
        ensures
            match r {
                Ok(f) => f.wf() && f.parts() == (dim, spacing, origin_x, origin_z, heights@),
                Err(e) => flaw((dim, spacing, origin_x, origin_z, heights@)) == Some(e),
            },
    {
        if !can_tile(dim) {
            return Err(TerrainError::Dim);
        }
        if spacing == 0 || spacing > 0x7F80_0000 {
            return Err(TerrainError::Spacing);
        }
        proof {
            lemma_square(dim as int);
        }
        if heights.len() as u64 != dim as u64 * dim as u64 {
            return Err(TerrainError::Count);
        }
        Ok(Heightfield { dim, spacing, origin_x, origin_z, heights })
    }

    /// The file of this heightfield.
    pub fn encode(&self) -> (b: Vec<u8>)
        requires
            self.wf(),
        ensures
            b@ == file_of(self.parts()),
            b@.len() == 24 + self.dim * self.dim * 4,
    {
        let mut b: Vec<u8> = Vec::new();
        b.push(0x41);
        b.push(0x55);
        b.push(0x52);
        b.push(0x54);
        b.push(0x45);
        b.push(0x52);
        b.push(0x52);
        b.push(0x31);
        assert(b@ =~= magic());
        put_le32(&mut b, self.dim);
        put_le32(&mut b, self.spacing);
        put_le32(&mut b, self.origin_x);
        put_le32(&mut b, self.origin_z);
        let ghost head = b@;
        let mut i: usize = 0;
        assert(b@ =~= head + height_bytes(self.heights@, 0));
        while i < self.heights.len()
            invariant
                i <= self.heights@.len(),
                b@ == head + height_bytes(self.heights@, i as int),
            decreases self.heights@.len() - i,
        {
            put_le32(&mut b, self.heights[i]);
            i += 1;
            assert(b@ =~= head + height_bytes(self.heights@, i as int));
        }
        proof {
            lemma_height_len(self.heights@, self.heights@.len() as int);
        }
        b
    }

    /// Read a file.
    pub fn decode(b: &[u8]) -> (r: Result<Heightfield, TerrainError>)
        ensures
            match r {
                Ok(f) => f.wf() && read_file(b@) == Ok::<Parts, TerrainError>(f.parts()),
                Err(e) => read_file(b@) == Err::<Parts, TerrainError>(e),
            },
    {
        let len: usize = b.len();
        if len < 24 {
            return Err(TerrainError::Short);
        }
        let known: bool = b[0] == 0x41 && b[1] == 0x55 && b[2] == 0x52 && b[3] == 0x54 && b[4]
            == 0x45 && b[5] == 0x52 && b[6] == 0x52 && b[7] == 0x31;
        proof {
            let s = b@.subrange(0, 8);
            if known {
                assert(s =~= magic());
            } else {
                assert(s[0] == b@[0] && s[1] == b@[1] && s[2] == b@[2] && s[3] == b@[3] && s[4]
                    == b@[4] && s[5] == b@[5] && s[6] == b@[6] && s[7] == b@[7]);
                assert(s != magic());
            }
        }
        if !known {
            return Err(TerrainError::Magic);
        }
        let dim: u32 = rd_le32(b, 8);
        if !can_tile(dim) {
            return Err(TerrainError::Dim);
        }
        let spacing: u32 = rd_le32(b, 12);
        if spacing == 0 || spacing > 0x7F80_0000 {
            return Err(TerrainError::Spacing);
        }
        proof {
            lemma_square(dim as int);
        }
        let n: u64 = dim as u64 * dim as u64;
        if len as u64 != 24 + n * 4 {
            return Err(TerrainError::Size);
        }
        let count: usize = n as usize;
        let mut heights: Vec<u32> = Vec::new();
        let mut i: usize = 0;
        while i < count
            invariant
                i <= count,
                len == b@.len(),
                len == 24 + count * 4,
                heights@.len() == i,
                forall|k: int|
                    0 <= k < i ==> #[trigger] heights@[k] == bytes::le32_at(b@, 24 + 4 * k),
            decreases count - i,
        {
            heights.push(rd_le32(b, 24 + 4 * i));
            i += 1;
        }
        let f = Heightfield {
            dim,
            spacing,
            origin_x: rd_le32(b, 16),
            origin_z: rd_le32(b, 20),
            heights,
        };
        assert(f.heights@ =~= read_file(b@)->Ok_0.4);
        Ok(f)
    }
}

proof fn lemma_height_len(h: Seq<u32>, n: int)
    requires
        0 <= n,
    ensures
        height_bytes(h, n).len() == 4 * n,
    decreases n,
{
    if n > 0 {
        lemma_height_len(h, n - 1);
    }
}

proof fn lemma_height_at(h: Seq<u32>, n: int, i: int, head: Seq<u8>)
    requires
        0 <= i < n,
    ensures
        bytes::le32_at(head + height_bytes(h, n), head.len() + 4 * i) == h[i],
    decreases n,
{
    lemma_height_len(h, n);
    lemma_height_len(h, n - 1);
    let all = head + height_bytes(h, n);
    if i < n - 1 {
        lemma_height_at(h, n - 1, i, head);
        let less = head + height_bytes(h, n - 1);
        let o = head.len() + 4 * i;
        assert(all[o] == less[o] && all[o + 1] == less[o + 1] && all[o + 2] == less[o + 2] && all[o
            + 3] == less[o + 3]);
    } else {
        let o = head.len() + 4 * i;
        let w = bytes::le32(h[i]);
        assert(all[o] == w[0] && all[o + 1] == w[1] && all[o + 2] == w[2] && all[o + 3] == w[3]);
        assert(all.subrange(o as int, o + 4) =~= w);
        bytes::lemma_le32_round_trip(h[i], all, o as int);
    }
}

/// What is written reads back as it was.
pub proof fn law_terrain_round_trip(p: Parts)
    requires
        flaw(p) is None,
    ensures
        read_file(file_of(p)) == Ok::<Parts, TerrainError>(p),
{
    let b = file_of(p);
    let n = p.4.len() as int;
    lemma_square(p.0 as int);
    lemma_height_len(p.4, n);
    let h0 = magic();
    let (a, s, x, z) = (bytes::le32(p.0), bytes::le32(p.1), bytes::le32(p.2), bytes::le32(p.3));
    let head = h0 + a + s + x + z;
    assert(b =~= head + height_bytes(p.4, n));
    assert(b.subrange(0, 8) =~= magic());
    assert(b[8] == a[0] && b[9] == a[1] && b[10] == a[2] && b[11] == a[3]);
    assert(b[12] == s[0] && b[13] == s[1] && b[14] == s[2] && b[15] == s[3]);
    assert(b[16] == x[0] && b[17] == x[1] && b[18] == x[2] && b[19] == x[3]);
    assert(b[20] == z[0] && b[21] == z[1] && b[22] == z[2] && b[23] == z[3]);
    assert(b.subrange(8, 12) =~= a);
    bytes::lemma_le32_round_trip(p.0, b, 8);
    assert(b.subrange(12, 16) =~= s);
    bytes::lemma_le32_round_trip(p.1, b, 12);
    assert(b.subrange(16, 20) =~= x);
    bytes::lemma_le32_round_trip(p.2, b, 16);
    assert(b.subrange(20, 24) =~= z);
    bytes::lemma_le32_round_trip(p.3, b, 20);
    let back = Seq::new((p.0 * p.0) as nat, |i: int| bytes::le32_at(b, 24 + 4 * i));
    assert forall|i: int| 0 <= i < n implies #[trigger] back[i] == p.4[i] by {
        lemma_height_at(p.4, n, i, head);
    }
    assert(back =~= p.4);
}

/// The terrain a program has loaded.
pub struct Terrain {
    pub field: Option<Heightfield>,
}

impl Terrain {
    pub open spec fn wf(self) -> bool {
        self.field matches Some(f) ==> f.wf()
    }

    pub fn new() -> (t: Terrain)
        ensures
            t.field is None,
            t.wf(),
    {
        Terrain { field: None }
    }

    /// Take a heightfield in place of the loaded one. Where there is none to take,
    /// the loaded one stays. Returns 1 or 0.
    pub fn install(&mut self, built: Result<Heightfield, TerrainError>) -> (r: i64)
        requires
            old(self).wf(),
            built matches Ok(f) ==> f.wf(),
        ensures
            final(self).wf(),
            match built {
                Ok(f) => r == 1 && final(self).field == Some(f),
                Err(_) => r == 0 && *final(self) == *old(self),
            },
    {
        match built {
            Ok(f) => {
                self.field = Some(f);
                1
            },
            Err(_) => 0,
        }
    }

    /// Load a file's bytes, where it could be read. Returns 1 or 0.
    pub fn terrain_load(&mut self, file: Option<&[u8]>) -> (r: i64)
        requires
            old(self).wf(),
        ensures
            final(self).wf(),
            match file {
                Some(b) => match read_file(b@) {
                    Ok(p) => r == 1 && final(self).field is Some && final(self).field->0.parts() == p,
                    Err(_) => r == 0 && *final(self) == *old(self),
                },
                None => r == 0 && *final(self) == *old(self),
            },
    {
        match file {
            Some(b) => self.install(Heightfield::decode(b)),
            None => 0,
        }
    }

    /// The bytes of the loaded terrain's file, where one is loaded.
    pub fn terrain_save(&self) -> (r: Option<Vec<u8>>)
        requires
            self.wf(),
        ensures
            match self.field {
                Some(f) => r is Some && r->0@ == file_of(f.parts()),
                None => r is None,
            },
    {
        match &self.field {
            Some(f) => Some(f.encode()),
            None => None,
        }
    }

    /// Samples along one side, or 0.
    pub fn terrain_size(&self) -> (r: i64)
        ensures
            r == (match self.field {
                Some(f) => f.dim as int,
                None => 0,
            }),
    {
        match &self.field {
            Some(f) => f.dim as i64,
            None => 0,
        }
    }

    /// The bits of the distance between samples, or 0.
    pub fn terrain_spacing(&self) -> (r: u32)
        ensures
            r == (match self.field {
                Some(f) => f.spacing,
                None => 0,
            }),
    {
        match &self.field {
            Some(f) => f.spacing,
            None => 0,
        }
    }

    /// The bits of world X of sample column 0, or 0.
    pub fn terrain_origin_x(&self) -> (r: u32)
        ensures
            r == (match self.field {
                Some(f) => f.origin_x,
                None => 0,
            }),
    {
        match &self.field {
            Some(f) => f.origin_x,
            None => 0,
        }
    }

    /// The bits of world Z of sample row 0, or 0.
    pub fn terrain_origin_z(&self) -> (r: u32)
        ensures
            r == (match self.field {
                Some(f) => f.origin_z,
                None => 0,
            }),
    {
        match &self.field {
            Some(f) => f.origin_z,
            None => 0,
        }
    }
}

/// Whether a terrain of these measures can be generated: the side length in range
/// and one that tiles, the samples a positive distance apart.
pub fn terrain_generate(dim: i64, spacing: u32) -> (r: Result<u32, TerrainError>)
    ensures
        r == (if !(0 <= dim <= u32::MAX) || !tiles(dim as int) {
            Err::<u32, TerrainError>(TerrainError::Dim)
        } else if !positive(spacing) {
            Err(TerrainError::Spacing)
        } else {
            Ok(dim as u32)
        }),
{
    if dim < 0 || dim > 0xFFFF_FFFF {
        return Err(TerrainError::Dim);
    }
    let d: u32 = dim as u32;
    if !can_tile(d) {
        return Err(TerrainError::Dim);
    }
    if spacing == 0 || spacing > 0x7F80_0000 {
        return Err(TerrainError::Spacing);
    }
    Ok(d)
}

/// A side tiles exactly where it is one more than a power of two, from the second to the
/// twelfth.
pub proof fn law_sides_are_one_more_than_a_power_of_two(dim: int, k: nat)
    ensures
        2 <= k <= 12 ==> tiles(pow2(k) as int + 1),
        tiles(dim) ==> 5 <= dim <= 4097 && exists|m: nat|
            2 <= m <= 12 && dim == #[trigger] pow2(m) + 1,
        tiles(dim) && dim < 4097 ==> tiles(2 * dim - 1),
        tiles(dim) && dim > 5 ==> tiles((dim + 1) / 2),
{
    lemma2_to64();
    assert(tiles(pow2(2) as int + 1));
    assert(tiles(pow2(3) as int + 1));
    assert(tiles(pow2(4) as int + 1));
    assert(tiles(pow2(5) as int + 1));
    assert(tiles(pow2(6) as int + 1));
    assert(tiles(pow2(7) as int + 1));
    assert(tiles(pow2(8) as int + 1));
    assert(tiles(pow2(9) as int + 1));
    assert(tiles(pow2(10) as int + 1));
    assert(tiles(pow2(11) as int + 1));
    assert(tiles(pow2(12) as int + 1));
}

/// A file begins with its name, `AURTERR1`; behind it stand the side, the spacing, the two
/// coordinates of the origin and the heights, four bytes each, least significant first.
pub proof fn law_a_terrain_file_is_laid_out_in_order(p: Parts, i: int)
    requires
        0 <= i < p.4.len(),
    ensures
        ({
            let b = file_of(p);
            &&& b.len() == 24 + 4 * p.4.len()
            &&& b.subrange(0, 8) == seq![
                'A' as u8,
                'U' as u8,
                'R' as u8,
                'T' as u8,
                'E' as u8,
                'R' as u8,
                'R' as u8,
                '1' as u8,
            ]
            &&& b.subrange(8, 12) == bytes::le32(p.0)
            &&& b.subrange(12, 16) == bytes::le32(p.1)
            &&& b.subrange(16, 20) == bytes::le32(p.2)
            &&& b.subrange(20, 24) == bytes::le32(p.3)
            &&& bytes::le32_at(b, 24 + 4 * i) == p.4[i]
        }),
{
    let b = file_of(p);
    let n = p.4.len() as int;
    lemma_height_len(p.4, n);
    let (a, s, x, z) = (bytes::le32(p.0), bytes::le32(p.1), bytes::le32(p.2), bytes::le32(p.3));
    let head = magic() + a + s + x + z;
    assert(b =~= head + height_bytes(p.4, n));
    assert(b.subrange(0, 8) =~= magic());
    assert(magic() =~= seq![
        'A' as u8,
        'U' as u8,
        'R' as u8,
        'T' as u8,
        'E' as u8,
        'R' as u8,
        'R' as u8,
        '1' as u8,
    ]);
    assert(b.subrange(8, 12) =~= a);
    assert(b.subrange(12, 16) =~= s);
    assert(b.subrange(16, 20) =~= x);
    assert(b.subrange(20, 24) =~= z);
    lemma_height_at(p.4, n, i, head);
}

/// A flawed heightfield that is written is refused for its flaw: for its side, for its
/// spacing, or for a number of heights that the file's size gives away.
pub proof fn law_flawed_files_are_refused_for_their_flaw(p: Parts)
    ensures
        flaw(p) == Some(TerrainError::Dim) ==> read_file(file_of(p)) == Err::<Parts, TerrainError>(
            TerrainError::Dim,
        ),
        flaw(p) == Some(TerrainError::Spacing) ==> read_file(file_of(p)) == Err::<
            Parts,
            TerrainError,
        >(TerrainError::Spacing),
        flaw(p) == Some(TerrainError::Count) ==> read_file(file_of(p)) == Err::<
            Parts,
            TerrainError,
        >(TerrainError::Size),
{
    let b = file_of(p);
    let n = p.4.len() as int;
    lemma_height_len(p.4, n);
    let (a, s, x, z) = (bytes::le32(p.0), bytes::le32(p.1), bytes::le32(p.2), bytes::le32(p.3));
    let head = magic() + a + s + x + z;
    assert(b =~= head + height_bytes(p.4, n));
    assert(b.subrange(0, 8) =~= magic());
    assert(b.subrange(8, 12) =~= a);
    bytes::lemma_le32_round_trip(p.0, b, 8);
    assert(b.subrange(12, 16) =~= s);
    bytes::lemma_le32_round_trip(p.1, b, 12);
    if tiles(p.0 as int) {
        lemma_square(p.0 as int);
    }
}

/// A spacing counts as one where its bits are those of a number above nothing: zero, what
/// is below it and what is no number are refused.
pub proof fn law_spacings_are_above_nothing(bits: u32)
    ensures
        !positive(0),
        !positive(0x8000_0000),
        bits > 0x8000_0000 ==> !positive(bits),
        0x7F80_0000 < bits < 0x8000_0000 ==> !positive(bits),
        0 < bits <= 0x7F80_0000 ==> positive(bits),
{
}

/// Whatever is read from a file has no flaw, and a file that is cut short or begins with
/// something else is refused.
pub proof fn law_what_is_read_has_no_flaw(b: Seq<u8>)
    ensures
        read_file(b) matches Ok(p) ==> flaw(p) is None && b.len() == 24 + 4 * p.4.len(),
        b.len() < 24 ==> read_file(b) is Err,
        b.len() >= 24 && b.subrange(0, 8) != magic() ==> read_file(b) == Err::<
            Parts,
            TerrainError,
        >(TerrainError::Magic),
{
    if let Ok(p) = read_file(b) {
        lemma_square(p.0 as int);
    }
}

/// Of several flaws the side counts first, then the spacing, then the number of heights; a
/// file is first asked for its length and its name.
pub proof fn law_the_first_flaw_counts(p: Parts, b: Seq<u8>)
    ensures
        !tiles(p.0 as int) ==> flaw(p) == Some(TerrainError::Dim),
        tiles(p.0 as int) && !positive(p.1) ==> flaw(p) == Some(TerrainError::Spacing),
        tiles(p.0 as int) && positive(p.1) && p.4.len() != p.0 * p.0 ==> flaw(p) == Some(
            TerrainError::Count,
        ),
        b.len() < 24 ==> read_file(b) == Err::<Parts, TerrainError>(TerrainError::Short),
        b.len() >= 24 && b.subrange(0, 8) == magic() && !tiles(bytes::le32_at(b, 8) as int)
            ==> read_file(b) == Err::<Parts, TerrainError>(TerrainError::Dim),
        b.len() >= 24 && b.subrange(0, 8) == magic() && tiles(bytes::le32_at(b, 8) as int)
            && !positive(bytes::le32_at(b, 12)) ==> read_file(b) == Err::<Parts, TerrainError>(
            TerrainError::Spacing,
        ),
{
}

} // verus!
