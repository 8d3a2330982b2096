//! Little-endian integers in byte buffers, as scene and terrain files hold them.
use vstd::prelude::*;

verus! {

/// The four bytes of a word, least significant first.
pub open spec fn le32(v: u32) -> Seq<u8> {
    seq![
        (v % 0x100) as u8,
        (v / 0x100 % 0x100) as u8,
        (v / 0x1_0000 % 0x100) as u8,
        (v / 0x100_0000) as u8,
    ]
}

/// The word whose least significant byte is `b[o]`.
pub open spec fn le32_at(b: Seq<u8>, o: int) -> u32 {
    (b[o] + b[o + 1] * 0x100 + b[o + 2] * 0x1_0000 + b[o + 3] * 0x100_0000) as u32
}

/// A signed number as the unsigned one with the same 64 bits.
pub open spec fn bits64(v: i64) -> int {
    if v >= 0 {
        v as int
    } else {
        v + 0x1_0000_0000_0000_0000
    }
}

/// The eight bytes of a number, least significant first.
#[verifier::opaque]
pub open spec fn le64(v: i64) -> Seq<u8> {
    le32((bits64(v) % 0x1_0000_0000) as u32) + le32((bits64(v) / 0x1_0000_0000) as u32)
}

/// The number whose least significant byte is `b[o]`.
#[verifier::opaque]
pub open spec fn le64_at(b: Seq<u8>, o: int) -> i64 {
    let u = le32_at(b, o) + le32_at(b, o + 4) * 0x1_0000_0000;
    if u < 0x8000_0000_0000_0000 {
        u as i64
    } else {
        (u - 0x1_0000_0000_0000_0000) as i64
    }
}

/// A number takes eight bytes.
pub broadcast proof fn lemma_le64_len(v: i64)
    ensures
        #[trigger] le64(v).len() == 8,
{
    reveal(le64);
}

pub fn put_le32(b: &mut Vec<u8>, v: u32)
    ensures
        final(b)@ == old(b)@ + le32(v),
{
    b.push((v % 0x100) as u8);
    b.push((v / 0x100 % 0x100) as u8);
    b.push((v / 0x1_0000 % 0x100) as u8);
    b.push((v / 0x100_0000) as u8);
}

pub fn rd_le32(b: &[u8], o: usize) -> (r: u32)
    requires
        o + 4 <= b@.len(),
    ensures
        r == le32_at(b@, o as int),
{
    b[o] as u32 + b[o + 1] as u32 * 0x100 + b[o + 2] as u32 * 0x1_0000 + b[o + 3] as u32
        * 0x100_0000
}

pub fn put_i64(b: &mut Vec<u8>, n: i64)
    ensures
        final(b)@ == old(b)@ + le64(n),
{
    reveal(le64);
    let u: u64 = if n >= 0 {
        n as u64
    } else {
        (n - i64::MIN) as u64 + 0x8000_0000_0000_0000
    };
    put_le32(b, (u % 0x1_0000_0000) as u32);
    put_le32(b, (u / 0x1_0000_0000) as u32);
    assert(b@ =~= old(b)@ + le64(n));
}

/// Read the number at `pos` and step past it; nothing where the buffer ends first.
pub fn get_i64(b: &[u8], pos: &mut usize) -> (r: Option<i64>)
    ensures
        r is Some <==> *old(pos) + 8 <= b@.len(),
        r matches Some(v) ==> v == le64_at(b@, *old(pos) as int) && *final(pos) == *old(pos) + 8,
        r is None ==> *final(pos) == *old(pos),
{
    reveal(le64_at);
    if *pos > b.len() || b.len() - *pos < 8 {
        return None;
    }
    let lo: u64 = rd_le32(b, *pos) as u64;
    let hi: u64 = rd_le32(b, *pos + 4) as u64;
    let u: u64 = lo + hi * 0x1_0000_0000;
    let v: i64 = if u < 0x8000_0000_0000_0000 {
        u as i64
    } else {
        (u - 0x8000_0000_0000_0000) as i64 + i64::MIN
    };
    *pos = *pos + 8;
    Some(v)
}

/// Reading back a word.
pub proof fn lemma_le32_round_trip(v: u32, b: Seq<u8>, o: int)
    requires
        0 <= o,
        o + 4 <= b.len(),
        b.subrange(o, o + 4) == le32(v),
    ensures
        le32_at(b, o) == v,
{
    let s = b.subrange(o, o + 4);
    assert(s[0] == b[o] && s[1] == b[o + 1] && s[2] == b[o + 2] && s[3] == b[o + 3]);
}

/// Reading back a number.
pub proof fn lemma_le64_round_trip(v: i64, b: Seq<u8>, o: int)
    requires
        0 <= o,
        o + 8 <= b.len(),
        b.subrange(o, o + 8) == le64(v),
    ensures
        le64_at(b, o) == v,
{
    reveal(le64);
    reveal(le64_at);
    let s = b.subrange(o, o + 8);
    assert(b.subrange(o, o + 4) =~= s.subrange(0, 4));
    assert(s.subrange(0, 4) =~= le32((bits64(v) % 0x1_0000_0000) as u32));
    lemma_le32_round_trip((bits64(v) % 0x1_0000_0000) as u32, b, o);
    assert(b.subrange(o + 4, o + 8) =~= s.subrange(4, 8));
    assert(s.subrange(4, 8) =~= le32((bits64(v) / 0x1_0000_0000) as u32));
    lemma_le32_round_trip((bits64(v) / 0x1_0000_0000) as u32, b, o + 4);
}

/// A word is held in four bytes and a number in eight, each worth 256 times the one
/// before it; a negative number is held as what it lacks to 2 to the 64.
pub proof fn law_the_last_byte_weighs_most(v: u32, n: i64)
    ensures
        le32(v).len() == 4,
        le32(v)[0] + 256 * (le32(v)[1] + 256 * (le32(v)[2] + 256 * le32(v)[3])) == v,
        le64(n).len() == 8,
        n >= 0 ==> bits64(n) == n,
        n < 0 ==> bits64(n) - n == 0x1_0000_0000_0000_0000,
        le64(n).subrange(0, 4) == le32((bits64(n) % 0x1_0000_0000) as u32),
        le64(n).subrange(4, 8) == le32((bits64(n) / 0x1_0000_0000) as u32),
{
    reveal(le64);
    assert(le64(n).subrange(0, 4) =~= le32((bits64(n) % 0x1_0000_0000) as u32));
    assert(le64(n).subrange(4, 8) =~= le32((bits64(n) / 0x1_0000_0000) as u32));
}

/// Four bytes that were written are read back as the word, and eight as the number.
pub proof fn law_written_bytes_are_read_back(v: u32, n: i64, before: Seq<u8>, after: Seq<u8>)
    ensures
        le32_at(before + le32(v) + after, before.len() as int) == v,
        le64_at(before + le64(n) + after, before.len() as int) == n,
{
    lemma_le64_len(n);
    let o = before.len() as int;
    let (b, c) = (before + le32(v) + after, before + le64(n) + after);
    assert(b.subrange(o, o + 4) =~= le32(v));
    lemma_le32_round_trip(v, b, o);
    assert(c.subrange(o, o + 8) =~= le64(n));
    lemma_le64_round_trip(n, c, o);
}

} // verus!
