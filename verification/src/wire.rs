//! The multiplayer wire format: big-endian datagrams, one tag byte first.
//!
//! Each datagram has its encoder, its decoder, and the law that the decoder
//! undoes the encoder. A float travels as its 32-bit pattern, so every float field here is a `u32`.
use vstd::prelude::*;
use vstd::slice::slice_subrange;

verus! {

/// Client to host: one frame of input.
pub const TAG_INPUT: u8 = 1;

/// Host to client: the players that changed since the last one.
pub const TAG_SNAPSHOT: u8 = 2;

/// Client to host: a hitscan shot, with the tick the shooter was looking at.
pub const TAG_FIRE: u8 = 3;

/// Host to client: what that shot hit.
pub const TAG_HIT: u8 = 4;

/// Host to a joiner that does not fit: the lobby is full.
pub const TAG_REJECT: u8 = 5;

/// Host to clients: world objects.
pub const TAG_OBJECTS: u8 = 6;

/// Host to clients: a kill (killer, victim).
pub const TAG_KILL: u8 = 7;

/// Client to host: a projectile was launched.
pub const TAG_PROJECTILE: u8 = 8;

/// Host to clients: transient visuals.
pub const TAG_FX: u8 = 9;

/// Host to clients: shots fired.
pub const TAG_SHOTFX: u8 = 10;

/// Client to host: leaving the lobby.
pub const TAG_LEAVE: u8 = 11;

/// Host to clients: explosions.
pub const TAG_BOOM: u8 = 12;

/// Most floats in a player's state.
pub const STATE_MAX: usize = 32;

/// Most floats in an input.
pub const INPUT_MAX: usize = 24;

/// Floats of metadata each player carries beside the state.
pub const META_LEN: usize = 18;

/// Bytes of a display name, zero padded.
pub const NAME_MAX: usize = 20;

/// Game-defined floats of a world object beside its pose.
pub const OBJ_STATE: usize = 8;

/// Floats of a world object on the wire: position, quaternion, state.
pub const OBJ_WORDS: usize = 15;

/// The four bytes of a word, most significant first.
pub open spec fn be32(v: u32) -> Seq<u8> {
    seq![
        (v / 0x100_0000) as u8,
        (v / 0x1_0000 % 0x100) as u8,
        (v / 0x100 % 0x100) as u8,
        (v % 0x100) as u8,
    ]
}

/// The word whose most significant byte is `b[o]`.
pub open spec fn word_at(b: Seq<u8>, o: int) -> u32 {
    (b[o] * 0x100_0000 + b[o + 1] * 0x1_0000 + b[o + 2] * 0x100 + b[o + 3]) as u32
}

/// Words laid end to end.
pub open spec fn words(ws: Seq<u32>) -> Seq<u8> {
    Seq::new(ws.len() * 4, |i: int| be32(ws[i / 4])[i % 4])
}

/// The `n` words that start at `b[o]`.
pub open spec fn words_at(b: Seq<u8>, o: int, n: int) -> Seq<u32> {
    Seq::new(n as nat, |i: int| word_at(b, o + 4 * i))
}

pub fn put_u32(b: &mut Vec<u8>, v: u32)
    ensures
        final(b)@ == old(b)@ + be32(v),
{
    b.push((v / 0x100_0000) as u8);
    b.push((v / 0x1_0000 % 0x100) as u8);
    b.push((v / 0x100 % 0x100) as u8);
    b.push((v % 0x100) as u8);
}

pub fn rd_u32(b: &[u8], o: usize) -> (r: u32)
    requires
        o + 4 <= b@.len(),
    ensures
        r == word_at(b@, o as int),
{
    b[o] as u32 * 0x100_0000 + b[o + 1] as u32 * 0x1_0000 + b[o + 2] as u32 * 0x100
        + b[o + 3] as u32
}

/// Append every word of `ws`.
pub fn put_words(b: &mut Vec<u8>, ws: &[u32])
    ensures
        final(b)@ == old(b)@ + words(ws@),
{
    let ghost b0 = b@;
    let mut i: usize = 0;
    while i < ws.len()
        invariant
            i <= ws@.len(),
            b@ == b0 + words(ws@.take(i as int)),
        decreases ws@.len() - i,
    {
        put_u32(b, ws[i]);
        assert(words(ws@.take(i + 1)) =~= words(ws@.take(i as int)) + be32(ws@[i as int]));
        i += 1;
    }
    assert(ws@.take(ws@.len() as int) =~= ws@);
}

/// Read `n` words into an array, the rest of which stays zero.
pub fn rd_words<const N: usize>(b: &[u8], o: usize, n: usize) -> (r: [u32; N])
    requires
        n <= N,
        o + 4 * n <= b@.len(),
    ensures
        forall|i: int| 0 <= i < N ==> #[trigger] r@[i] == (if i < n {
            word_at(b@, o + 4 * i)
        } else {
            0
        }),
{
    let len: usize = b.len();
    let mut r = [0u32; N];
    let mut i: usize = 0;
    while i < n
        invariant
            i <= n <= N,
            o + 4 * n <= b@.len() == len,
            forall|k: int| 0 <= k < N ==> #[trigger] r@[k] == (if k < i {
                word_at(b@, o + 4 * k)
            } else {
                0
            }),
        decreases n - i,
    {
        r[i] = rd_u32(b, o + 4 * i);
        i += 1;
    }
    r
}

/// Reading back the word that was laid down.
pub proof fn lemma_word_round_trip(v: u32, b: Seq<u8>, o: int)
    requires
        0 <= o,
        o + 4 <= b.len(),
        b.subrange(o, o + 4) == be32(v),
    ensures
        word_at(b, o) == v,
{
    let s = b.subrange(o, o + 4);
    assert(s[0] == b[o] && s[1] == b[o + 1] && s[2] == b[o + 2] && s[3] == b[o + 3]);
}

/// The two bytes of a count, most significant first; a count past `u16` wraps.
pub open spec fn be16(n: nat) -> Seq<u8> {
    seq![(n / 0x100 % 0x100) as u8, (n % 0x100) as u8]
}

pub open spec fn count_at(b: Seq<u8>, o: int) -> nat {
    (b[o] * 0x100 + b[o + 1]) as nat
}

fn put_count(b: &mut Vec<u8>, n: usize)
    ensures
        final(b)@ == old(b)@ + be16(n as nat),
{
    b.push((n / 0x100 % 0x100) as u8);
    b.push((n % 0x100) as u8);
}

fn rd_count(b: &[u8], o: usize) -> (r: usize)
    requires
        o + 2 <= b@.len(),
    ensures
        r == count_at(b@, o as int),
{
    b[o] as usize * 0x100 + b[o + 1] as usize
}

/// Records laid end to end.
pub open spec fn flat<T>(xs: Seq<T>, enc: spec_fn(T) -> Seq<u8>) -> Seq<u8>
    decreases xs.len(),
{
    if xs.len() == 0 {
        Seq::empty()
    } else {
        flat(xs.drop_last(), enc) + enc(xs.last())
    }
}

/// Appending one record.
pub proof fn lemma_flat_push<T>(xs: Seq<T>, k: int, enc: spec_fn(T) -> Seq<u8>)
    requires
        0 <= k < xs.len(),
    ensures
        flat(xs.take(k + 1), enc) == flat(xs.take(k), enc) + enc(xs[k]),
{
    assert(xs.take(k + 1).drop_last() =~= xs.take(k));
}

/// Where every record takes `stride` bytes, record `k` stands at `k * stride`.
pub proof fn lemma_flat_at<T>(xs: Seq<T>, enc: spec_fn(T) -> Seq<u8>, stride: int, k: int)
    requires
        0 <= stride,
        forall|i: int| 0 <= i < xs.len() ==> (#[trigger] enc(xs[i])).len() == stride,
    ensures
        flat(xs, enc).len() == xs.len() * stride,
        0 <= k < xs.len() ==> 0 <= k * stride && (k + 1) * stride == k * stride + stride && (k + 1)
            * stride <= xs.len() * stride && flat(xs, enc).subrange(k * stride, (k + 1) * stride) == enc(xs[k]),
    decreases xs.len(),
{
    if xs.len() > 0 {
        let ys = xs.drop_last();
        assert forall|i: int| 0 <= i < ys.len() implies (#[trigger] enc(ys[i])).len() == stride by {
            assert(ys[i] == xs[i]);
        }
        lemma_flat_at(ys, enc, stride, k);
        let n = xs.len() as int;
        assert((n - 1) * stride + stride == n * stride) by (nonlinear_arith);
        assert(enc(xs[n - 1]).len() == stride);
        if 0 <= k < n {
            assert(0 <= k * stride <= (k + 1) * stride <= n * stride) by (nonlinear_arith)
                requires
                    0 <= k < n,
                    0 <= stride,
            ;
            assert(k * stride + stride == (k + 1) * stride) by (nonlinear_arith);
            if k < n - 1 {
                assert((k + 1) * stride <= (n - 1) * stride) by (nonlinear_arith)
                    requires
                        0 <= k < n - 1,
                        0 <= stride,
                ;
                assert(flat(xs, enc).subrange(k * stride, (k + 1) * stride) =~= flat(
                    ys,
                    enc,
                ).subrange(k * stride, (k + 1) * stride));
            } else {
                assert(flat(xs, enc).subrange(k * stride, (k + 1) * stride) =~= enc(xs[k]));
            }
        }
    } else {
        assert(xs.len() * stride == 0) by (nonlinear_arith)
            requires
                xs.len() == 0,
        ;
    }
}

/// Reading back words that were laid down.
pub proof fn lemma_words_round_trip(ws: Seq<u32>, b: Seq<u8>, o: int)
    requires
        0 <= o,
        o + 4 * ws.len() <= b.len(),
        b.subrange(o, o + 4 * ws.len()) == words(ws),
    ensures
        words_at(b, o, ws.len() as int) == ws,
{
    assert forall|i: int| 0 <= i < ws.len() implies word_at(b, o + 4 * i) == ws[i] by {
        let s = b.subrange(o, o + 4 * ws.len());
        assert forall|j: int| 0 <= j < 4 implies #[trigger] b[o + 4 * i + j] == be32(ws[i])[j] by {
            assert(s[4 * i + j] == b[o + 4 * i + j]);
            assert((4 * i + j) / 4 == i && (4 * i + j) % 4 == j);
        }
        let t = b.subrange(o + 4 * i, o + 4 * i + 4);
        assert forall|j: int| 0 <= j < 4 implies #[trigger] t[j] == be32(ws[i])[j] by {
            assert(t[j] == b[o + 4 * i + j]);
        }
        assert(t =~= be32(ws[i]));
        lemma_word_round_trip(ws[i], b, o + 4 * i);
    }
    assert(words_at(b, o, ws.len() as int) =~= ws);
}

/// Whether a datagram is a list of the given kind at all.
pub open spec fn is_list(b: Seq<u8>, tag: u8) -> bool {
    b.len() >= 3 && b[0] == tag
}

/// How many whole records a list datagram yields: what it announces, or what fits.
pub open spec fn list_count(b: Seq<u8>, stride: int) -> nat {
    let room = ((b.len() - 3) / stride) as nat;
    if count_at(b, 1) <= room {
        count_at(b, 1)
    } else {
        room
    }
}

/// A list datagram.
pub open spec fn list_bytes<T>(tag: u8, xs: Seq<T>, enc: spec_fn(T) -> Seq<u8>) -> Seq<u8> {
    seq![tag] + be16(xs.len()) + flat(xs, enc)
}

/// A list of at most `u16::MAX` records is read back record for record.
pub proof fn lemma_list_round_trip<T>(
    tag: u8,
    xs: Seq<T>,
    enc: spec_fn(T) -> Seq<u8>,
    stride: int,
    k: int,
)
    requires
        stride > 0,
        xs.len() <= 0xffff,
        forall|i: int| 0 <= i < xs.len() ==> (#[trigger] enc(xs[i])).len() == stride,
    ensures
        is_list(list_bytes(tag, xs, enc), tag),
        list_count(list_bytes(tag, xs, enc), stride) == xs.len(),
        0 <= k < xs.len() ==> 0 <= k * stride && (k + 1) * stride == k * stride + stride && 3 + (k
            + 1) * stride <= list_bytes(
            tag,
            xs,
            enc,
        ).len() && list_bytes(tag, xs, enc).subrange(3 + k * stride, 3 + (k + 1) * stride) == enc(
            xs[k],
        ),
{
    let b = list_bytes(tag, xs, enc);
    let n = xs.len() as int;
    lemma_flat_at(xs, enc, stride, k);
    assert(b[1] == be16(xs.len())[0] && b[2] == be16(xs.len())[1]);
    assert(count_at(b, 1) == xs.len());
    assert((n * stride) / stride == n) by (nonlinear_arith)
        requires
            stride > 0,
    ;
    if 0 <= k < n {
        assert(b.subrange(3 + k * stride, 3 + (k + 1) * stride) =~= flat(xs, enc).subrange(
            k * stride,
            (k + 1) * stride,
        ));
    }
}

/// Splitting the room that is left by whole records.
pub proof fn lemma_room(avail: int, k: int, stride: int)
    requires
        stride > 0,
        0 <= k,
        0 <= k * stride <= avail,
    ensures
        k <= avail / stride,
        avail - k * stride >= stride ==> k + 1 <= avail / stride && (k + 1) * stride <= avail,
        avail - k * stride < stride ==> k == avail / stride,
{
    assert(k <= avail / stride) by (nonlinear_arith)
        requires
            stride > 0,
            0 <= k * stride <= avail,
    ;
    assert((k + 1) * stride == k * stride + stride) by (nonlinear_arith);
    if avail - k * stride >= stride {
        assert(k + 1 <= avail / stride) by (nonlinear_arith)
            requires
                stride > 0,
                (k + 1) * stride <= avail,
        ;
    } else {
        assert(k >= avail / stride) by (nonlinear_arith)
            requires
                stride > 0,
                avail < (k + 1) * stride,
        ;
    }
}

/// What a player carries: the opaque simulation state (position in words 0..3,
/// yaw in word 3), metadata that never enters the simulation, and a name.
#[derive(Clone, Copy)]
pub struct Player {
    pub s: [u32; STATE_MAX],
    pub meta: [u32; META_LEN],
    pub name: [u8; NAME_MAX],
}

impl Player {
    pub open spec fn is_blank(self) -> bool {
        &&& forall|i: int| 0 <= i < STATE_MAX ==> #[trigger] self.s@[i] == 0
        &&& forall|i: int| 0 <= i < META_LEN ==> #[trigger] self.meta@[i] == 0
        &&& forall|i: int| 0 <= i < NAME_MAX ==> #[trigger] self.name@[i] == 0
    }

    pub fn spawn() -> (p: Player)
        ensures
            p.is_blank(),
    {
        Player { s: [0u32; 32], meta: [0u32; 18], name: [0u8; 20] }
    }
}

/// Words followed by zeros up to `n` of them.
pub open spec fn zero_ext(ws: Seq<u32>, n: int) -> Seq<u32> {
    Seq::new(
        n as nat,
        |i: int|
            if i < ws.len() {
                ws[i]
            } else {
                0
            },
    )
}

fn put_bytes(b: &mut Vec<u8>, bs: &[u8])
    ensures
        final(b)@ == old(b)@ + bs@,
{
    let ghost b0 = b@;
    let mut i: usize = 0;
    while i < bs.len()
        invariant
            i <= bs@.len(),
            b@ == b0 + bs@.take(i as int),
        decreases bs@.len() - i,
    {
        b.push(bs[i]);
        assert(bs@.take(i + 1) =~= bs@.take(i as int).push(bs@[i as int]));
        i += 1;
    }
    assert(bs@.take(bs@.len() as int) =~= bs@);
}

fn rd_name(b: &[u8], o: usize) -> (r: [u8; NAME_MAX])
    requires
        o + NAME_MAX <= b@.len(),
    ensures
        r@ == b@.subrange(o as int, o + NAME_MAX),
{
    let len: usize = b.len();
    let mut r = [0u8; 20];
    let mut i: usize = 0;
    while i < NAME_MAX
        invariant
            i <= NAME_MAX,
            o + NAME_MAX <= b@.len() == len,
            forall|k: int| 0 <= k < i ==> #[trigger] r@[k] == b@[o + k],
        decreases NAME_MAX - i,
    {
        r[i] = b[o + i];
        i += 1;
    }
    assert(r@ =~= b@.subrange(o as int, o + NAME_MAX));
    r
}

// --- input -------------------------------------------------------------------
/// One frame of a client's input, with the metadata, name and predicted state it
/// reports beside it.
#[derive(Clone, Copy)]
pub struct InputMsg {
    pub seq: u32,
    pub blob: [u32; INPUT_MAX],
    pub meta: [u32; META_LEN],
    pub name: [u8; NAME_MAX],
    pub state: [u32; STATE_MAX],
}

pub open spec fn input_len(len: int, slen: int) -> int {
    5 + len * 4 + META_LEN * 4 + NAME_MAX + slen * 4
}

pub open spec fn input_bytes(m: InputMsg, len: int, slen: int) -> Seq<u8> {
    seq![TAG_INPUT] + be32(m.seq) + words(m.blob@.take(len as int)) + words(m.meta@) + m.name@
        + words(m.state@.take(slen as int))
}

/// The datagram is long enough and is an input.
pub open spec fn is_input(b: Seq<u8>, len: int, slen: int) -> bool {
    b.len() >= input_len(len, slen) && b[0] == TAG_INPUT
}

/// The datagram says `m`; what it does not carry of the blob and state is zero.
pub open spec fn says_input(b: Seq<u8>, len: int, slen: int, m: InputMsg) -> bool {
    let no = 5 + len * 4 + META_LEN * 4;
    &&& m.seq == word_at(b, 1)
    &&& m.blob@ == zero_ext(words_at(b, 5, len), INPUT_MAX as int)
    &&& m.meta@ == words_at(b, 5 + len * 4, META_LEN as int)
    &&& m.name@ == b.subrange(no as int, no + NAME_MAX)
    &&& m.state@ == zero_ext(words_at(b, no + NAME_MAX, slen), STATE_MAX as int)
}

pub fn encode_input(m: &InputMsg, len: usize, slen: usize) -> (r: Vec<u8>)
    requires
        len <= INPUT_MAX,
        slen <= STATE_MAX,
    ensures
        r@ == input_bytes(*m, len as int, slen as int),
{
    let mut b: Vec<u8> = Vec::new();
    b.push(TAG_INPUT);
    put_u32(&mut b, m.seq);
    put_words(&mut b, slice_subrange(m.blob.as_slice(), 0, len));
    put_words(&mut b, m.meta.as_slice());
    put_bytes(&mut b, m.name.as_slice());
    put_words(&mut b, slice_subrange(m.state.as_slice(), 0, slen));
    assert(m.blob@.subrange(0, len as int) =~= m.blob@.take(len as int));
    assert(m.state@.subrange(0, slen as int) =~= m.state@.take(slen as int));
    b
}

pub fn decode_input(b: &[u8], len: usize, slen: usize) -> (r: Option<InputMsg>)
    requires
        len <= INPUT_MAX,
        slen <= STATE_MAX,
    ensures
        r is Some <==> is_input(b@, len as int, slen as int),
        r matches Some(m) ==> says_input(b@, len as int, slen as int, m),
{
    if b.len() < 5 + len * 4 + META_LEN * 4 + NAME_MAX + slen * 4 || b[0] != TAG_INPUT {
        return None;
    }
    let no: usize = 5 + len * 4 + META_LEN * 4;
    let m = InputMsg {
        seq: rd_u32(b, 1),
        blob: rd_words(b, 5, len),
        meta: rd_words(b, 5 + len * 4, META_LEN),
        name: rd_name(b, no),
        state: rd_words(b, no + NAME_MAX, slen),
    };
    assert(m.blob@ =~= zero_ext(words_at(b@, 5, len as int), INPUT_MAX as int));
    assert(m.meta@ =~= words_at(b@, 5 + len * 4, META_LEN as int));
    assert(m.state@ =~= zero_ext(words_at(b@, no + NAME_MAX, slen as int), STATE_MAX as int));
    Some(m)
}

/// Reading back an input: everything but the words past `len` and `slen`, which
/// are not sent.
pub proof fn law_input_round_trip(m: InputMsg, got: InputMsg, len: int, slen: int)
    requires
        0 <= len <= INPUT_MAX,
        0 <= slen <= STATE_MAX,
        says_input(input_bytes(m, len, slen), len, slen, got),
    ensures
        is_input(input_bytes(m, len, slen), len, slen),
        got.seq == m.seq,
        got.blob@ == zero_ext(m.blob@.take(len as int), INPUT_MAX as int),
        got.meta == m.meta,
        got.name == m.name,
        got.state@ == zero_ext(m.state@.take(slen as int), STATE_MAX as int),
{
    let b = input_bytes(m, len, slen);
    let no = 5 + len * 4 + META_LEN * 4;
    assert(b.subrange(1, 5) =~= be32(m.seq));
    lemma_word_round_trip(m.seq, b, 1);
    let bl = m.blob@.take(len as int);
    let st = m.state@.take(slen as int);
    assert(b.subrange(5, 5 + 4 * len) =~= words(bl));
    lemma_words_round_trip(bl, b, 5);
    assert(b.subrange(5 + len * 4, 5 + len * 4 + 4 * META_LEN) =~= words(m.meta@));
    lemma_words_round_trip(m.meta@, b, 5 + len * 4);
    assert(b.subrange(no as int, no + NAME_MAX) =~= m.name@);
    assert(b.subrange(no + NAME_MAX, no + NAME_MAX + 4 * slen) =~= words(st));
    lemma_words_round_trip(st, b, no + NAME_MAX);
    assert(got.meta =~= m.meta);
    assert(got.name =~= m.name) by {
        assert forall|i: int| 0 <= i < NAME_MAX implies got.name[i] == m.name[i] by {
            assert(got.name@[i] == m.name@[i]);
        }
    }
}

// --- snapshot ----------------------------------------------------------------
/// Bytes of one player when `slen` state words are sent.
pub open spec fn player_stride(slen: int) -> int {
    4 + (slen + META_LEN as int) * 4 + NAME_MAX as int
}

pub open spec fn player_bytes(p: (u32, Player), slen: int) -> Seq<u8> {
    be32(p.0) + words(p.1.s@.take(slen as int)) + words(p.1.meta@) + p.1.name@
}

pub open spec fn player_enc(slen: int) -> spec_fn((u32, Player)) -> Seq<u8> {
    |p: (u32, Player)| player_bytes(p, slen)
}

/// The datagram holds `p` at `o`; state words past `slen` are zero.
pub open spec fn says_player(b: Seq<u8>, o: int, slen: int, p: (u32, Player)) -> bool {
    let no = o + 4 + (slen + META_LEN as int) * 4;
    &&& p.0 == word_at(b, o)
    &&& p.1.s@ == zero_ext(words_at(b, o + 4, slen), STATE_MAX as int)
    &&& p.1.meta@ == words_at(b, o + 4 + slen * 4, META_LEN as int)
    &&& p.1.name@ == b.subrange(no, no + NAME_MAX)
}

/// A host's snapshot for one client.
pub struct Snapshot {
    pub your_id: u32,
    pub acked: u32,
    pub tick: u32,
    pub stick: u32,
    pub players: Vec<(u32, Player)>,
}

pub open spec fn snapshot_bytes(
    your_id: u32,
    acked: u32,
    tick: u32,
    stick: u32,
    slen: int,
    players: Seq<(u32, Player)>,
) -> Seq<u8> {
    seq![TAG_SNAPSHOT] + be32(your_id) + be32(acked) + be32(tick) + be32(stick) + be16(
        players.len(),
    ) + seq![slen as u8] + flat(players, player_enc(slen))
}

pub open spec fn is_snapshot(b: Seq<u8>) -> bool {
    b.len() >= 20 && b[0] == TAG_SNAPSHOT
}

/// The state width a snapshot announces, never past `STATE_MAX`.
pub open spec fn snapshot_slen(b: Seq<u8>) -> int {
    if b[19] <= STATE_MAX {
        b[19] as int
    } else {
        STATE_MAX as int
    }
}

/// How many whole players a snapshot yields.
pub open spec fn snapshot_count(b: Seq<u8>) -> nat {
    let room = ((b.len() - 20) / player_stride(snapshot_slen(b))) as nat;
    if count_at(b, 17) <= room {
        count_at(b, 17)
    } else {
        room
    }
}

pub open spec fn says_snapshot(b: Seq<u8>, r: Snapshot) -> bool {
    let slen = snapshot_slen(b);
    &&& r.your_id == word_at(b, 1)
    &&& r.acked == word_at(b, 5)
    &&& r.tick == word_at(b, 9)
    &&& r.stick == word_at(b, 13)
    &&& r.players@.len() == snapshot_count(b)
    &&& forall|k: int|
        0 <= k < r.players@.len() ==> says_player(
            b,
            20 + k * player_stride(slen),
            slen,
            #[trigger] r.players@[k],
        )
}

fn put_player(b: &mut Vec<u8>, id: u32, p: &Player, slen: usize)
    requires
        slen <= STATE_MAX,
    ensures
        final(b)@ == old(b)@ + player_bytes((id, *p), slen as int),
{
    let ghost b0 = b@;
    put_u32(b, id);
    put_words(b, slice_subrange(p.s.as_slice(), 0, slen));
    put_words(b, p.meta.as_slice());
    put_bytes(b, p.name.as_slice());
    assert(p.s@.subrange(0, slen as int) =~= p.s@.take(slen as int));
    assert(b@ =~= b0 + player_bytes((id, *p), slen as int));
}

pub fn encode_snapshot(
    your_id: u32,
    acked: u32,
    tick: u32,
    stick: u32,
    slen: usize,
    players: &Vec<(u32, Player)>,
) -> (r: Vec<u8>)
    requires
        slen <= STATE_MAX,
    ensures
        r@ == snapshot_bytes(your_id, acked, tick, stick, slen as int, players@),
{
    let mut b: Vec<u8> = Vec::new();
    b.push(TAG_SNAPSHOT);
    put_u32(&mut b, your_id);
    put_u32(&mut b, acked);
    put_u32(&mut b, tick);
    put_u32(&mut b, stick);
    put_count(&mut b, players.len());
    b.push(slen as u8);
    let ghost head = b@;
    let ghost enc = player_enc(slen as int);
    let mut i: usize = 0;
    while i < players.len()
        invariant
            slen <= STATE_MAX,
            i <= players@.len(),
            enc == player_enc(slen as int),
            b@ == head + flat(players@.take(i as int), enc),
        decreases players@.len() - i,
    {
        put_player(&mut b, players[i].0, &players[i].1, slen);
        proof {
            lemma_flat_push(players@, i as int, enc);
            assert((players@[i as int].0, players@[i as int].1) == players@[i as int]);
        }
        i += 1;
    }
    assert(players@.take(players@.len() as int) =~= players@);
    assert(b@ =~= snapshot_bytes(your_id, acked, tick, stick, slen as int, players@));
    b
}

fn rd_player(b: &[u8], o: usize, slen: usize) -> (p: (u32, Player))
    requires
        slen <= STATE_MAX,
        o + player_stride(slen as int) <= b@.len(),
    ensures
        says_player(b@, o as int, slen as int, p),
{
    let len: usize = b.len();
    let no: usize = o + 4 + (slen + META_LEN) * 4;
    let p = Player {
        s: rd_words(b, o + 4, slen),
        meta: rd_words(b, o + 4 + slen * 4, META_LEN),
        name: rd_name(b, no),
    };
    assert(p.s@ =~= zero_ext(words_at(b@, o + 4, slen as int), STATE_MAX as int));
    assert(p.meta@ =~= words_at(b@, o + 4 + slen * 4, META_LEN as int));
    (rd_u32(b, o), p)
}

pub fn decode_snapshot(b: &[u8]) -> (r: Option<Snapshot>)
    ensures
        r is Some <==> is_snapshot(b@),
        r matches Some(s) ==> says_snapshot(b@, s),
{
    if b.len() < 20 || b[0] != TAG_SNAPSHOT {
        return None;
    }
    let len: usize = b.len();
    let count: usize = rd_count(b, 17);
    let slen: usize = if b[19] as usize <= STATE_MAX {
        b[19] as usize
    } else {
        STATE_MAX
    };
    let stride: usize = 4 + (slen + META_LEN) * 4 + NAME_MAX;
    let mut players: Vec<(u32, Player)> = Vec::new();
    let mut o: usize = 20;
    while players.len() < count && len - o >= stride
        invariant
            slen <= STATE_MAX,
            slen == snapshot_slen(b@),
            stride == player_stride(slen as int),
            20 <= o <= len == b@.len(),
            o == 20 + players@.len() * stride,
            players@.len() <= count == count_at(b@, 17),
            forall|k: int|
                0 <= k < players@.len() ==> says_player(
                    b@,
                    20 + k * stride,
                    slen as int,
                    #[trigger] players@[k],
                ),
        decreases len - o,
    {
        let p = rd_player(b, o, slen);
        proof {
            let k = players@.len() as int;
            assert((k + 1) * stride == k * stride + stride) by (nonlinear_arith);
        }
        players.push(p);
        o += stride;
    }
    proof {
        let k = players@.len() as int;
        assert(k * stride >= 0) by (nonlinear_arith)
            requires
                k >= 0,
        ;
        lemma_room(len - 20, k, stride as int);
    }
    Some(
        Snapshot {
            your_id: rd_u32(b, 1),
            acked: rd_u32(b, 5),
            tick: rd_u32(b, 9),
            stick: rd_u32(b, 13),
            players,
        },
    )
}

proof fn lemma_player_round_trip(p: (u32, Player), got: (u32, Player), b: Seq<u8>, o: int, slen: int)
    requires
        0 <= slen <= STATE_MAX,
        0 <= o,
        o + player_stride(slen) <= b.len(),
        b.subrange(o, o + player_stride(slen)) == player_bytes(p, slen),
        says_player(b, o, slen, got),
    ensures
        got.0 == p.0,
        got.1.s@ == zero_ext(p.1.s@.take(slen as int), STATE_MAX as int),
        got.1.meta == p.1.meta,
        got.1.name == p.1.name,
{
    let c = b.subrange(o, o + player_stride(slen));
    let st = p.1.s@.take(slen as int);
    let no = o + 4 + (slen + META_LEN as int) * 4;
    assert(b.subrange(o, o + 4) =~= c.subrange(0, 4));
    assert(c.subrange(0, 4) =~= be32(p.0));
    lemma_word_round_trip(p.0, b, o);
    assert(b.subrange(o + 4, o + 4 + 4 * slen) =~= c.subrange(4, 4 + 4 * slen as int));
    assert(c.subrange(4, 4 + 4 * slen as int) =~= words(st));
    lemma_words_round_trip(st, b, o + 4);
    let mo = o + 4 + slen * 4;
    assert(b.subrange(mo, mo + 4 * META_LEN) =~= c.subrange(mo - o, mo - o + 4 * META_LEN));
    assert(c.subrange(mo - o, mo - o + 4 * META_LEN) =~= words(p.1.meta@));
    lemma_words_round_trip(p.1.meta@, b, mo);
    assert(b.subrange(no, no + NAME_MAX) =~= c.subrange(no - o, no - o + NAME_MAX));
    assert(c.subrange(no - o, no - o + NAME_MAX) =~= p.1.name@);
    assert(got.1.meta =~= p.1.meta);
    assert(got.1.name =~= p.1.name) by {
        assert forall|i: int| 0 <= i < NAME_MAX implies got.1.name[i] == p.1.name[i] by {
            assert(got.1.name@[i] == p.1.name@[i]);
        }
    }
}

/// Reading back a snapshot of at most `u16::MAX` players: every player, in
/// order, less the state words past `slen`.
#[verifier::spinoff_prover]
#[verifier::rlimit(60)]
pub proof fn law_snapshot_round_trip(
    your_id: u32,
    acked: u32,
    tick: u32,
    stick: u32,
    slen: int,
    players: Seq<(u32, Player)>,
    got: Snapshot,
)
    requires
        0 <= slen <= STATE_MAX,
        players.len() <= 0xffff,
        says_snapshot(snapshot_bytes(your_id, acked, tick, stick, slen, players), got),
    ensures
        is_snapshot(snapshot_bytes(your_id, acked, tick, stick, slen, players)),
        got.your_id == your_id,
        got.acked == acked,
        got.tick == tick,
        got.stick == stick,
        got.players@.len() == players.len(),
        forall|k: int|
            0 <= k < players.len() ==> {
                let g = #[trigger] got.players@[k];
                &&& g.0 == players[k].0
                &&& g.1.s@ == zero_ext(players[k].1.s@.take(slen as int), STATE_MAX as int)
                &&& g.1.meta == players[k].1.meta
                &&& g.1.name == players[k].1.name
            },
{
    let b = snapshot_bytes(your_id, acked, tick, stick, slen, players);
    let enc = player_enc(slen);
    let stride = player_stride(slen);
    assert(b.subrange(1, 5) =~= be32(your_id));
    lemma_word_round_trip(your_id, b, 1);
    assert(b.subrange(5, 9) =~= be32(acked));
    lemma_word_round_trip(acked, b, 5);
    assert(b.subrange(9, 13) =~= be32(tick));
    lemma_word_round_trip(tick, b, 9);
    assert(b.subrange(13, 17) =~= be32(stick));
    lemma_word_round_trip(stick, b, 13);
    assert(b[17] == be16(players.len())[0] && b[18] == be16(players.len())[1]);
    assert(count_at(b, 17) == players.len());
    assert(b[19] == slen);
    assert forall|i: int| 0 <= i < players.len() implies (#[trigger] enc(players[i])).len()
        == stride by {}
    lemma_flat_at(players, enc, stride, 0);
    assert((players.len() * stride) / stride == players.len()) by (nonlinear_arith)
        requires
            stride > 0,
    ;
    assert(b.len() - 20 == players.len() * stride);
    assert forall|k: int| 0 <= k < players.len() implies ({
        let g = #[trigger] got.players@[k];
        &&& g.0 == players[k].0
        &&& g.1.s@ == zero_ext(players[k].1.s@.take(slen as int), STATE_MAX as int)
        &&& g.1.meta == players[k].1.meta
        &&& g.1.name == players[k].1.name
    }) by {
        lemma_flat_at(players, enc, stride, k);
        let o = 20 + k * stride;
        assert(b.subrange(o, o + stride) =~= flat(players, enc).subrange(
            k * stride,
            (k + 1) * stride,
        ));
        lemma_player_round_trip(players[k], got.players@[k], b, o, slen);
    }
}

// --- fire, hit, projectile, kill ---------------------------------------------
/// A client's hitscan shot: the tick it was looking at, where the ray starts and
/// points, and the weapon.
#[derive(Clone, Copy)]
pub struct FireMsg {
    pub view_tick: u32,
    pub o: [u32; 3],
    pub d: [u32; 3],
    pub weapon: u8,
}

pub open spec fn fire_bytes(m: FireMsg) -> Seq<u8> {
    seq![TAG_FIRE] + be32(m.view_tick) + words(m.o@) + words(m.d@) + seq![m.weapon]
}

pub open spec fn is_fire(b: Seq<u8>) -> bool {
    b.len() >= 30 && b[0] == TAG_FIRE
}

pub open spec fn says_fire(b: Seq<u8>, m: FireMsg) -> bool {
    &&& m.view_tick == word_at(b, 1)
    &&& m.o@ == words_at(b, 5, 3)
    &&& m.d@ == words_at(b, 17, 3)
    &&& m.weapon == b[29]
}

pub fn encode_fire(m: &FireMsg) -> (r: Vec<u8>)
    ensures
        r@ == fire_bytes(*m),
{
    let mut b: Vec<u8> = Vec::new();
    b.push(TAG_FIRE);
    put_u32(&mut b, m.view_tick);
    put_words(&mut b, m.o.as_slice());
    put_words(&mut b, m.d.as_slice());
    b.push(m.weapon);
    assert(b@ =~= fire_bytes(*m));
    b
}

/// Three words, as a point or a direction.
fn rd_vec3(b: &[u8], o: usize) -> (r: [u32; 3])
    requires
        o + 12 <= b@.len(),
    ensures
        r@ == words_at(b@, o as int, 3),
{
    let r: [u32; 3] = rd_words(b, o, 3);
    assert(r@ =~= words_at(b@, o as int, 3));
    r
}

pub fn decode_fire(b: &[u8]) -> (r: Option<FireMsg>)
    ensures
        r is Some <==> is_fire(b@),
        r matches Some(m) ==> says_fire(b@, m),
{
    if b.len() < 30 || b[0] != TAG_FIRE {
        return None;
    }
    Some(FireMsg { view_tick: rd_u32(b, 1), o: rd_vec3(b, 5), d: rd_vec3(b, 17), weapon: b[29] })
}

/// Reading back a shot.
pub proof fn law_fire_round_trip(m: FireMsg, got: FireMsg)
    requires
        says_fire(fire_bytes(m), got),
    ensures
        is_fire(fire_bytes(m)),
        got == m,
{
    let b = fire_bytes(m);
    assert(b.subrange(1, 5) =~= be32(m.view_tick));
    lemma_word_round_trip(m.view_tick, b, 1);
    assert(b.subrange(5, 17) =~= words(m.o@));
    lemma_words_round_trip(m.o@, b, 5);
    assert(b.subrange(17, 29) =~= words(m.d@));
    lemma_words_round_trip(m.d@, b, 17);
    assert(got.o =~= m.o);
    assert(got.d =~= m.d);
}

pub open spec fn hit_bytes(id: i64, p: Seq<u32>) -> Seq<u8> {
    seq![TAG_HIT] + be32(id as u32) + words(p)
}

pub open spec fn is_hit(b: Seq<u8>) -> bool {
    b.len() >= 17 && b[0] == TAG_HIT
}

/// The id is sent as a signed 32-bit number, so that "nothing" (-1) survives.
pub open spec fn says_hit(b: Seq<u8>, id: i64, p: [u32; 3]) -> bool {
    &&& id == word_at(b, 1) as i32
    &&& p@ == words_at(b, 5, 3)
}

pub fn encode_hit(id: i64, p: [u32; 3]) -> (r: Vec<u8>)
    ensures
        r@ == hit_bytes(id, p@),
{
    let mut b: Vec<u8> = Vec::new();
    b.push(TAG_HIT);
    put_u32(&mut b, #[verifier::truncate] (id as u32));
    put_words(&mut b, p.as_slice());
    assert(b@ =~= hit_bytes(id, p@));
    b
}

pub fn decode_hit(b: &[u8]) -> (r: Option<(i64, [u32; 3])>)
    ensures
        r is Some <==> is_hit(b@),
        r matches Some(m) ==> says_hit(b@, m.0, m.1),
{
    if b.len() < 17 || b[0] != TAG_HIT {
        return None;
    }
    let w: u32 = rd_u32(b, 1);
    let id: i32 = #[verifier::truncate] (w as i32);
    Some((id as i64, rd_vec3(b, 5)))
}

/// Reading back a hit, for every id a client can be told.
pub proof fn law_hit_round_trip(id: i64, p: [u32; 3], got_id: i64, got_p: [u32; 3])
    requires
        i32::MIN <= id <= i32::MAX,
        says_hit(hit_bytes(id, p@), got_id, got_p),
    ensures
        is_hit(hit_bytes(id, p@)),
        got_id == id,
        got_p == p,
{
    let b = hit_bytes(id, p@);
    assert(b.subrange(1, 5) =~= be32(id as u32));
    lemma_word_round_trip(id as u32, b, 1);
    assert(b.subrange(5, 17) =~= words(p@));
    lemma_words_round_trip(p@, b, 5);
    assert(got_p =~= p);
    assert(((id as u32) as i32) as i64 == id) by (bit_vector)
        requires
            -0x8000_0000 <= id <= 0x7fff_ffff,
    ;
}

/// A client's launch: 0 is a rocket, 1 a grenade.
#[derive(Clone, Copy)]
pub struct LaunchMsg {
    pub kind: u8,
    pub origin: [u32; 3],
    pub vel: [u32; 3],
}

pub open spec fn projectile_bytes(m: LaunchMsg) -> Seq<u8> {
    seq![TAG_PROJECTILE, m.kind] + words(m.origin@) + words(m.vel@)
}

pub open spec fn is_projectile(b: Seq<u8>) -> bool {
    b.len() >= 26 && b[0] == TAG_PROJECTILE
}

pub open spec fn says_projectile(b: Seq<u8>, m: LaunchMsg) -> bool {
    &&& m.kind == b[1]
    &&& m.origin@ == words_at(b, 2, 3)
    &&& m.vel@ == words_at(b, 14, 3)
}

pub fn encode_projectile(m: &LaunchMsg) -> (r: Vec<u8>)
    ensures
        r@ == projectile_bytes(*m),
{
    let mut b: Vec<u8> = Vec::new();
    b.push(TAG_PROJECTILE);
    b.push(m.kind);
    put_words(&mut b, m.origin.as_slice());
    put_words(&mut b, m.vel.as_slice());
    assert(b@ =~= projectile_bytes(*m));
    b
}

pub fn decode_projectile(b: &[u8]) -> (r: Option<LaunchMsg>)
    ensures
        r is Some <==> is_projectile(b@),
        r matches Some(m) ==> says_projectile(b@, m),
{
    if b.len() < 26 || b[0] != TAG_PROJECTILE {
        return None;
    }
    Some(LaunchMsg { kind: b[1], origin: rd_vec3(b, 2), vel: rd_vec3(b, 14) })
}

/// Reading back a launch.
pub proof fn law_projectile_round_trip(m: LaunchMsg, got: LaunchMsg)
    requires
        says_projectile(projectile_bytes(m), got),
    ensures
        is_projectile(projectile_bytes(m)),
        got == m,
{
    let b = projectile_bytes(m);
    assert(b.subrange(2, 14) =~= words(m.origin@));
    lemma_words_round_trip(m.origin@, b, 2);
    assert(b.subrange(14, 26) =~= words(m.vel@));
    lemma_words_round_trip(m.vel@, b, 14);
    assert(got.origin =~= m.origin);
    assert(got.vel =~= m.vel);
}

pub open spec fn kill_bytes(killer: u32, victim: u32) -> Seq<u8> {
    seq![TAG_KILL] + be32(killer) + be32(victim)
}

pub open spec fn is_kill(b: Seq<u8>) -> bool {
    b.len() >= 9 && b[0] == TAG_KILL
}

pub fn encode_kill(killer: u32, victim: u32) -> (r: Vec<u8>)
    ensures
        r@ == kill_bytes(killer, victim),
{
    let mut b: Vec<u8> = Vec::new();
    b.push(TAG_KILL);
    put_u32(&mut b, killer);
    put_u32(&mut b, victim);
    assert(b@ =~= kill_bytes(killer, victim));
    b
}

pub fn decode_kill(b: &[u8]) -> (r: Option<(u32, u32)>)
    ensures
        r == (if is_kill(b@) {
            Some((word_at(b@, 1), word_at(b@, 5)))
        } else {
            None
        }),
{
    if b.len() < 9 || b[0] != TAG_KILL {
        return None;
    }
    Some((rd_u32(b, 1), rd_u32(b, 5)))
}

/// Reading back a kill.
pub proof fn law_kill_round_trip(killer: u32, victim: u32)
    ensures
        is_kill(kill_bytes(killer, victim)),
        word_at(kill_bytes(killer, victim), 1) == killer,
        word_at(kill_bytes(killer, victim), 5) == victim,
{
    let b = kill_bytes(killer, victim);
    assert(b.subrange(1, 5) =~= be32(killer));
    lemma_word_round_trip(killer, b, 1);
    assert(b.subrange(5, 9) =~= be32(victim));
    lemma_word_round_trip(victim, b, 5);
}

// --- transient visuals ---------------------------------------------------------
/// A visual: x, y, z and kind.
pub open spec fn fx_enc() -> spec_fn([u32; 4]) -> Seq<u8> {
    |f: [u32; 4]| words(f@)
}

pub fn encode_fx(fx: &Vec<[u32; 4]>) -> (r: Vec<u8>)
    ensures
        r@ == list_bytes(TAG_FX, fx@, fx_enc()),
{
    let mut b: Vec<u8> = Vec::new();
    b.push(TAG_FX);
    put_count(&mut b, fx.len());
    let ghost head = b@;
    let mut i: usize = 0;
    while i < fx.len()
        invariant
            i <= fx@.len(),
            b@ == head + flat(fx@.take(i as int), fx_enc()),
        decreases fx@.len() - i,
    {
        put_words(&mut b, fx[i].as_slice());
        proof {
            lemma_flat_push(fx@, i as int, fx_enc());
        }
        i += 1;
    }
    assert(fx@.take(fx@.len() as int) =~= fx@);
    assert(b@ =~= list_bytes(TAG_FX, fx@, fx_enc()));
    b
}

pub fn decode_fx(b: &[u8]) -> (r: Option<Vec<[u32; 4]>>)
    ensures
        r is Some <==> is_list(b@, TAG_FX),
        r matches Some(v) ==> v@.len() == list_count(b@, 16) && forall|k: int|
            0 <= k < v@.len() ==> (#[trigger] v@[k])@ == words_at(b@, 3 + 16 * k, 4),
{
    if b.len() < 3 || b[0] != TAG_FX {
        return None;
    }
    let len: usize = b.len();
    let count: usize = rd_count(b, 1);
    let mut v: Vec<[u32; 4]> = Vec::new();
    let mut o: usize = 3;
    while v.len() < count && len - o >= 16
        invariant
            3 <= o <= len == b@.len(),
            o == 3 + 16 * v@.len(),
            v@.len() <= count == count_at(b@, 1),
            forall|k: int| 0 <= k < v@.len() ==> (#[trigger] v@[k])@ == words_at(b@, 3 + 16 * k, 4),
        decreases len - o,
    {
        let f: [u32; 4] = rd_words(b, o, 4);
        assert(f@ =~= words_at(b@, o as int, 4));
        v.push(f);
        o += 16;
    }
    Some(v)
}

/// Reading back up to `u16::MAX` visuals.
pub proof fn law_fx_round_trip(fx: Seq<[u32; 4]>, k: int)
    requires
        fx.len() <= 0xffff,
    ensures
        is_list(list_bytes(TAG_FX, fx, fx_enc()), TAG_FX),
        list_count(list_bytes(TAG_FX, fx, fx_enc()), 16) == fx.len(),
        0 <= k < fx.len() ==> words_at(list_bytes(TAG_FX, fx, fx_enc()), 3 + 16 * k, 4) == fx[k]@,
{
    lemma_list_round_trip(TAG_FX, fx, fx_enc(), 16, k);
    if 0 <= k < fx.len() {
        lemma_words_round_trip(fx[k]@, list_bytes(TAG_FX, fx, fx_enc()), 3 + 16 * k);
    }
}

// --- world objects -------------------------------------------------------------
/// A world object: position in words 0..3, quaternion in 3..7, then the game's
/// own state words.
pub open spec fn object_enc() -> spec_fn([u32; OBJ_WORDS]) -> Seq<u8> {
    |f: [u32; OBJ_WORDS]| words(f@)
}

pub fn encode_objects(objs: &Vec<[u32; OBJ_WORDS]>) -> (r: Vec<u8>)
    ensures
        r@ == list_bytes(TAG_OBJECTS, objs@, object_enc()),
{
    let mut b: Vec<u8> = Vec::new();
    b.push(TAG_OBJECTS);
    put_count(&mut b, objs.len());
    let ghost head = b@;
    let mut i: usize = 0;
    while i < objs.len()
        invariant
            i <= objs@.len(),
            b@ == head + flat(objs@.take(i as int), object_enc()),
        decreases objs@.len() - i,
    {
        put_words(&mut b, objs[i].as_slice());
        proof {
            lemma_flat_push(objs@, i as int, object_enc());
        }
        i += 1;
    }
    assert(objs@.take(objs@.len() as int) =~= objs@);
    assert(b@ =~= list_bytes(TAG_OBJECTS, objs@, object_enc()));
    b
}

pub fn decode_objects(b: &[u8]) -> (r: Option<Vec<[u32; OBJ_WORDS]>>)
    ensures
        r is Some <==> is_list(b@, TAG_OBJECTS),
        r matches Some(v) ==> v@.len() == list_count(b@, 60) && forall|k: int|
            0 <= k < v@.len() ==> (#[trigger] v@[k])@ == words_at(b@, 3 + 60 * k, 15),
{
    if b.len() < 3 || b[0] != TAG_OBJECTS {
        return None;
    }
    let len: usize = b.len();
    let count: usize = rd_count(b, 1);
    let mut v: Vec<[u32; OBJ_WORDS]> = Vec::new();
    let mut o: usize = 3;
    while v.len() < count && len - o >= 60
        invariant
            3 <= o <= len == b@.len(),
            o == 3 + 60 * v@.len(),
            v@.len() <= count == count_at(b@, 1),
            forall|k: int| 0 <= k < v@.len() ==> (#[trigger] v@[k])@ == words_at(b@, 3 + 60 * k, 15),
        decreases len - o,
    {
        let f: [u32; OBJ_WORDS] = rd_words(b, o, OBJ_WORDS);
        assert(f@ =~= words_at(b@, o as int, 15));
        v.push(f);
        o += 60;
    }
    Some(v)
}

/// Reading back up to `u16::MAX` objects.
pub proof fn law_objects_round_trip(objs: Seq<[u32; OBJ_WORDS]>, k: int)
    requires
        objs.len() <= 0xffff,
    ensures
        is_list(list_bytes(TAG_OBJECTS, objs, object_enc()), TAG_OBJECTS),
        list_count(list_bytes(TAG_OBJECTS, objs, object_enc()), 60) == objs.len(),
        0 <= k < objs.len() ==> words_at(
            list_bytes(TAG_OBJECTS, objs, object_enc()),
            3 + 60 * k,
            15,
        ) == objs[k]@,
{
    lemma_list_round_trip(TAG_OBJECTS, objs, object_enc(), 60, k);
    if 0 <= k < objs.len() {
        lemma_words_round_trip(objs[k]@, list_bytes(TAG_OBJECTS, objs, object_enc()), 3 + 60 * k);
    }
}

// --- shots and explosions --------------------------------------------------------
/// A shot to draw: who fired, from where, to where, with what.
#[derive(Clone, Copy)]
pub struct ShotFx {
    pub shooter: u32,
    pub o: [u32; 3],
    pub e: [u32; 3],
    pub weapon: u8,
}

pub open spec fn shot_enc() -> spec_fn(ShotFx) -> Seq<u8> {
    |s: ShotFx| be32(s.shooter) + words(s.o@) + words(s.e@) + seq![s.weapon]
}

pub open spec fn says_shot(b: Seq<u8>, o: int, s: ShotFx) -> bool {
    &&& s.shooter == word_at(b, o)
    &&& s.o@ == words_at(b, o + 4, 3)
    &&& s.e@ == words_at(b, o + 16, 3)
    &&& s.weapon == b[o + 28]
}

pub fn encode_shots(shots: &Vec<ShotFx>) -> (r: Vec<u8>)
    ensures
        r@ == list_bytes(TAG_SHOTFX, shots@, shot_enc()),
{
    let mut b: Vec<u8> = Vec::new();
    b.push(TAG_SHOTFX);
    put_count(&mut b, shots.len());
    let ghost head = b@;
    let mut i: usize = 0;
    while i < shots.len()
        invariant
            i <= shots@.len(),
            b@ == head + flat(shots@.take(i as int), shot_enc()),
        decreases shots@.len() - i,
    {
        let ghost b0 = b@;
        put_u32(&mut b, shots[i].shooter);
        put_words(&mut b, shots[i].o.as_slice());
        put_words(&mut b, shots[i].e.as_slice());
        b.push(shots[i].weapon);
        proof {
            lemma_flat_push(shots@, i as int, shot_enc());
            assert(b@ =~= b0 + shot_enc()(shots@[i as int]));
        }
        i += 1;
    }
    assert(shots@.take(shots@.len() as int) =~= shots@);
    assert(b@ =~= list_bytes(TAG_SHOTFX, shots@, shot_enc()));
    b
}

pub fn decode_shots(b: &[u8]) -> (r: Option<Vec<ShotFx>>)
    ensures
        r is Some <==> is_list(b@, TAG_SHOTFX),
        r matches Some(v) ==> v@.len() == list_count(b@, 29) && forall|k: int|
            0 <= k < v@.len() ==> says_shot(b@, 3 + 29 * k, #[trigger] v@[k]),
{
    if b.len() < 3 || b[0] != TAG_SHOTFX {
        return None;
    }
    let len: usize = b.len();
    let count: usize = rd_count(b, 1);
    let mut v: Vec<ShotFx> = Vec::new();
    let mut o: usize = 3;
    while v.len() < count && len - o >= 29
        invariant
            3 <= o <= len == b@.len(),
            o == 3 + 29 * v@.len(),
            v@.len() <= count == count_at(b@, 1),
            forall|k: int| 0 <= k < v@.len() ==> says_shot(b@, 3 + 29 * k, #[trigger] v@[k]),
        decreases len - o,
    {
        v.push(
            ShotFx {
                shooter: rd_u32(b, o),
                o: rd_vec3(b, o + 4),
                e: rd_vec3(b, o + 16),
                weapon: b[o + 28],
            },
        );
        o += 29;
    }
    Some(v)
}

/// Reading back up to `u16::MAX` shots.
pub proof fn law_shots_round_trip(shots: Seq<ShotFx>, k: int, got: ShotFx)
    requires
        shots.len() <= 0xffff,
        0 <= k < shots.len(),
        says_shot(list_bytes(TAG_SHOTFX, shots, shot_enc()), 3 + 29 * k, got),
    ensures
        is_list(list_bytes(TAG_SHOTFX, shots, shot_enc()), TAG_SHOTFX),
        list_count(list_bytes(TAG_SHOTFX, shots, shot_enc()), 29) == shots.len(),
        got == shots[k],
{
    let b = list_bytes(TAG_SHOTFX, shots, shot_enc());
    let s = shots[k];
    let o = 3 + 29 * k;
    lemma_list_round_trip(TAG_SHOTFX, shots, shot_enc(), 29, k);
    let c = b.subrange(o, o + 29);
    assert(b.subrange(o, o + 4) =~= c.subrange(0, 4));
    assert(c.subrange(0, 4) =~= be32(s.shooter));
    lemma_word_round_trip(s.shooter, b, o);
    assert(b.subrange(o + 4, o + 16) =~= c.subrange(4, 16));
    assert(c.subrange(4, 16) =~= words(s.o@));
    lemma_words_round_trip(s.o@, b, o + 4);
    assert(b.subrange(o + 16, o + 28) =~= c.subrange(16, 28));
    assert(c.subrange(16, 28) =~= words(s.e@));
    lemma_words_round_trip(s.e@, b, o + 16);
    assert(b[o + 28] == c[28]);
    assert(got.o =~= s.o);
    assert(got.e =~= s.e);
}

/// An explosion: who caused it, where, how strong.
#[derive(Clone, Copy)]
pub struct Boom {
    pub source: u32,
    pub p: [u32; 3],
    pub intensity: u32,
}

pub open spec fn boom_enc() -> spec_fn(Boom) -> Seq<u8> {
    |m: Boom| be32(m.source) + words(m.p@) + be32(m.intensity)
}

pub open spec fn says_boom(b: Seq<u8>, o: int, m: Boom) -> bool {
    &&& m.source == word_at(b, o)
    &&& m.p@ == words_at(b, o + 4, 3)
    &&& m.intensity == word_at(b, o + 16)
}

pub fn encode_booms(booms: &Vec<Boom>) -> (r: Vec<u8>)
    ensures
        r@ == list_bytes(TAG_BOOM, booms@, boom_enc()),
{
    let mut b: Vec<u8> = Vec::new();
    b.push(TAG_BOOM);
    put_count(&mut b, booms.len());
    let ghost head = b@;
    let mut i: usize = 0;
    while i < booms.len()
        invariant
            i <= booms@.len(),
            b@ == head + flat(booms@.take(i as int), boom_enc()),
        decreases booms@.len() - i,
    {
        let ghost b0 = b@;
        put_u32(&mut b, booms[i].source);
        put_words(&mut b, booms[i].p.as_slice());
        put_u32(&mut b, booms[i].intensity);
        proof {
            lemma_flat_push(booms@, i as int, boom_enc());
            assert(b@ =~= b0 + boom_enc()(booms@[i as int]));
        }
        i += 1;
    }
    assert(booms@.take(booms@.len() as int) =~= booms@);
    assert(b@ =~= list_bytes(TAG_BOOM, booms@, boom_enc()));
    b
}

pub fn decode_booms(b: &[u8]) -> (r: Option<Vec<Boom>>)
    ensures
        r is Some <==> is_list(b@, TAG_BOOM),
        r matches Some(v) ==> v@.len() == list_count(b@, 20) && forall|k: int|
            0 <= k < v@.len() ==> says_boom(b@, 3 + 20 * k, #[trigger] v@[k]),
{
    if b.len() < 3 || b[0] != TAG_BOOM {
        return None;
    }
    let len: usize = b.len();
    let count: usize = rd_count(b, 1);
    let mut v: Vec<Boom> = Vec::new();
    let mut o: usize = 3;
    while v.len() < count && len - o >= 20
        invariant
            3 <= o <= len == b@.len(),
            o == 3 + 20 * v@.len(),
            v@.len() <= count == count_at(b@, 1),
            forall|k: int| 0 <= k < v@.len() ==> says_boom(b@, 3 + 20 * k, #[trigger] v@[k]),
        decreases len - o,
    {
        v.push(Boom { source: rd_u32(b, o), p: rd_vec3(b, o + 4), intensity: rd_u32(b, o + 16) });
        o += 20;
    }
    Some(v)
}

/// Reading back up to `u16::MAX` explosions.
pub proof fn law_booms_round_trip(booms: Seq<Boom>, k: int, got: Boom)
    requires
        booms.len() <= 0xffff,
        0 <= k < booms.len(),
        says_boom(list_bytes(TAG_BOOM, booms, boom_enc()), 3 + 20 * k, got),
    ensures
        is_list(list_bytes(TAG_BOOM, booms, boom_enc()), TAG_BOOM),
        list_count(list_bytes(TAG_BOOM, booms, boom_enc()), 20) == booms.len(),
        got == booms[k],
{
    let b = list_bytes(TAG_BOOM, booms, boom_enc());
    let m = booms[k];
    let o = 3 + 20 * k;
    lemma_list_round_trip(TAG_BOOM, booms, boom_enc(), 20, k);
    let c = b.subrange(o, o + 20);
    assert(b.subrange(o, o + 4) =~= c.subrange(0, 4));
    assert(c.subrange(0, 4) =~= be32(m.source));
    lemma_word_round_trip(m.source, b, o);
    assert(b.subrange(o + 4, o + 16) =~= c.subrange(4, 16));
    assert(c.subrange(4, 16) =~= words(m.p@));
    lemma_words_round_trip(m.p@, b, o + 4);
    assert(b.subrange(o + 16, o + 20) =~= c.subrange(16, 20));
    assert(c.subrange(16, 20) =~= be32(m.intensity));
    lemma_word_round_trip(m.intensity, b, o + 16);
    assert(got.p =~= m.p);
}

/// A word is sent in four bytes, each worth 256 times the next; a count in two. Words stand
/// one behind the other.
pub proof fn law_the_first_byte_weighs_most(v: u32, n: nat, ws: Seq<u32>, i: int)
    ensures
        be32(v).len() == 4,
        256 * (256 * (256 * be32(v)[0] + be32(v)[1]) + be32(v)[2]) + be32(v)[3] == v,
        be16(n).len() == 2,
        n <= 0xffff ==> 256 * be16(n)[0] + be16(n)[1] == n,
        words(ws).len() == 4 * ws.len(),
        0 <= i < ws.len() ==> words(ws).subrange(4 * i, 4 * i + 4) == be32(ws[i]),
{
    if 0 <= i < ws.len() {
        let s = words(ws).subrange(4 * i, 4 * i + 4);
        assert forall|j: int| 0 <= j < 4 implies #[trigger] s[j] == be32(ws[i])[j] by {
            assert((4 * i + j) / 4 == i && (4 * i + j) % 4 == j);
        }
        assert(s =~= be32(ws[i]));
    }
}

/// The first byte of a datagram says what it is: no two kinds of it share one.
pub proof fn law_datagrams_are_told_apart_by_their_first_byte(a: int, b: int)
    ensures
        ({
            let tags = seq![
                TAG_INPUT,
                TAG_SNAPSHOT,
                TAG_FIRE,
                TAG_HIT,
                TAG_REJECT,
                TAG_OBJECTS,
                TAG_KILL,
                TAG_PROJECTILE,
                TAG_FX,
                TAG_SHOTFX,
                TAG_LEAVE,
                TAG_BOOM,
            ];
            &&& 0 <= a < tags.len() ==> tags[a] == a + 1
            &&& 0 <= a < b < tags.len() ==> tags[a] != tags[b]
        }),
{
}

/// An input stands in its datagram as its number, its words, its metadata, its name and
/// its state, in this order behind the first byte.
pub proof fn law_an_input_is_laid_out_in_order(m: InputMsg, len: int, slen: int)
    requires
        0 <= len <= INPUT_MAX,
        0 <= slen <= STATE_MAX,
    ensures
        ({
            let b = input_bytes(m, len, slen);
            let meta = 5 + 4 * len;
            let name = meta + 4 * META_LEN;
            let state = name + NAME_MAX;
            &&& b.len() == state + 4 * slen
            &&& b[0] == TAG_INPUT
            &&& b.subrange(1, 5) == be32(m.seq)
            &&& b.subrange(5, meta) == words(m.blob@.take(len))
            &&& b.subrange(meta, name) == words(m.meta@)
            &&& b.subrange(name, state) == m.name@
            &&& b.subrange(state, b.len() as int) == words(m.state@.take(slen))
        }),
{
    let b = input_bytes(m, len, slen);
    let meta = 5 + 4 * len;
    let name = meta + 4 * META_LEN;
    let state = name + NAME_MAX;
    assert(b.subrange(1, 5) =~= be32(m.seq));
    assert(b.subrange(5, meta) =~= words(m.blob@.take(len)));
    assert(b.subrange(meta, name) =~= words(m.meta@));
    assert(b.subrange(name, state) =~= m.name@);
    assert(b.subrange(state, b.len() as int) =~= words(m.state@.take(slen)));
}

/// A snapshot says whose it is, what it acknowledges, the two ticks, how many players it
/// holds and how wide their states are, and then the players one behind the other: each
/// its id, its state, its metadata and its name.
pub proof fn law_a_snapshot_is_laid_out_in_order(
    your_id: u32,
    acked: u32,
    tick: u32,
    stick: u32,
    slen: int,
    players: Seq<(u32, Player)>,
    p: (u32, Player),
)
    requires
        0 <= slen <= STATE_MAX,
    ensures
        ({
            let b = snapshot_bytes(your_id, acked, tick, stick, slen, players);
            let more = snapshot_bytes(your_id, acked, tick, stick, slen, players.push(p));
            let (meta, name) = (4 + 4 * slen, 4 + 4 * slen + 4 * META_LEN);
            let last = more.skip(b.len() as int);
            &&& b.len() == 20 + players.len() * (name + NAME_MAX)
            &&& b[0] == TAG_SNAPSHOT
            &&& b.subrange(1, 5) == be32(your_id)
            &&& b.subrange(5, 9) == be32(acked)
            &&& b.subrange(9, 13) == be32(tick)
            &&& b.subrange(13, 17) == be32(stick)
            &&& b.subrange(17, 19) == be16(players.len())
            &&& b[19] == slen
            &&& b.skip(20) == more.subrange(20, b.len() as int)
            &&& last.len() == name + NAME_MAX
            &&& last.subrange(0, 4) == be32(p.0)
            &&& last.subrange(4, meta) == words(p.1.s@.take(slen))
            &&& last.subrange(meta, name) == words(p.1.meta@)
            &&& last.skip(name) == p.1.name@
        }),
{
    let b = snapshot_bytes(your_id, acked, tick, stick, slen, players);
    let all = players.push(p);
    let more = snapshot_bytes(your_id, acked, tick, stick, slen, all);
    let (meta, name) = (4 + 4 * slen, 4 + 4 * slen + 4 * META_LEN);
    let enc = player_enc(slen);
    assert(all.drop_last() =~= players);
    assert(flat(all, enc) == flat(players, enc) + player_bytes(p, slen));
    lemma_players_length(players, slen);
    assert(b.subrange(1, 5) =~= be32(your_id));
    assert(b.subrange(5, 9) =~= be32(acked));
    assert(b.subrange(9, 13) =~= be32(tick));
    assert(b.subrange(13, 17) =~= be32(stick));
    assert(b.subrange(17, 19) =~= be16(players.len()));
    assert(b.skip(20) =~= flat(players, enc));
    assert(more.subrange(20, b.len() as int) =~= flat(players, enc));
    let last = more.skip(b.len() as int);
    assert(last =~= player_bytes(p, slen));
    assert(last.subrange(0, 4) =~= be32(p.0));
    assert(last.subrange(4, meta) =~= words(p.1.s@.take(slen)));
    assert(last.subrange(meta, name) =~= words(p.1.meta@));
    assert(last.skip(name) =~= p.1.name@);
}

proof fn lemma_players_length(players: Seq<(u32, Player)>, slen: int)
    requires
        0 <= slen <= STATE_MAX,
    ensures
        flat(players, player_enc(slen)).len() == players.len() * (4 + 4 * slen + 4 * META_LEN
            + NAME_MAX),
    decreases players.len(),
{
    let w = 4 + 4 * slen + 4 * META_LEN + NAME_MAX;
    let n = players.len() as int;
    if n > 0 {
        lemma_players_length(players.drop_last(), slen);
        assert((n - 1) * w + w == n * w) by (nonlinear_arith);
    } else {
        assert(0 * w == 0);
    }
}

/// A shot says the tick that was seen, where it starts, where it goes and the weapon; a
/// launch says the projectile, where it starts and how fast it flies; a hit says whom and
/// where.
pub proof fn law_shots_are_laid_out_in_order(f: FireMsg, l: LaunchMsg, id: i64, p: [u32; 3])
    ensures
        fire_bytes(f).len() == 30,
        fire_bytes(f)[0] == TAG_FIRE,
        fire_bytes(f).subrange(1, 5) == be32(f.view_tick),
        fire_bytes(f).subrange(5, 17) == words(f.o@),
        fire_bytes(f).subrange(17, 29) == words(f.d@),
        fire_bytes(f)[29] == f.weapon,
        projectile_bytes(l).len() == 26,
        projectile_bytes(l)[0] == TAG_PROJECTILE,
        projectile_bytes(l)[1] == l.kind,
        projectile_bytes(l).subrange(2, 14) == words(l.origin@),
        projectile_bytes(l).subrange(14, 26) == words(l.vel@),
        hit_bytes(id, p@).len() == 17,
        hit_bytes(id, p@)[0] == TAG_HIT,
        0 <= id <= u32::MAX ==> hit_bytes(id, p@).subrange(1, 5) == be32(id as u32),
        hit_bytes(id, p@).subrange(5, 17) == words(p@),
{
    assert(fire_bytes(f).subrange(1, 5) =~= be32(f.view_tick));
    assert(fire_bytes(f).subrange(5, 17) =~= words(f.o@));
    assert(fire_bytes(f).subrange(17, 29) =~= words(f.d@));
    assert(projectile_bytes(l).subrange(2, 14) =~= words(l.origin@));
    assert(projectile_bytes(l).subrange(14, 26) =~= words(l.vel@));
    assert(hit_bytes(id, p@).subrange(1, 5) =~= be32(id as u32));
    assert(hit_bytes(id, p@).subrange(5, 17) =~= words(p@));
}

/// A shot to draw says who fired, from where, to where and with what; an explosion who
/// caused it, where and how strong; a kill who killed and who was killed.
pub proof fn law_effects_are_laid_out_in_order(s: ShotFx, m: Boom, killer: u32, victim: u32)
    ensures
        ({
            let (x, y) = (shot_enc()(s), boom_enc()(m));
            let k = kill_bytes(killer, victim);
            &&& x.len() == 29
            &&& x.subrange(0, 4) == be32(s.shooter)
            &&& x.subrange(4, 16) == words(s.o@)
            &&& x.subrange(16, 28) == words(s.e@)
            &&& x[28] == s.weapon
            &&& y.len() == 20
            &&& y.subrange(0, 4) == be32(m.source)
            &&& y.subrange(4, 16) == words(m.p@)
            &&& y.subrange(16, 20) == be32(m.intensity)
            &&& k.len() == 9
            &&& k[0] == TAG_KILL
            &&& k.subrange(1, 5) == be32(killer)
            &&& k.subrange(5, 9) == be32(victim)
        }),
{
    let (x, y) = (shot_enc()(s), boom_enc()(m));
    let k = kill_bytes(killer, victim);
    assert(x.subrange(0, 4) =~= be32(s.shooter));
    assert(x.subrange(4, 16) =~= words(s.o@));
    assert(x.subrange(16, 28) =~= words(s.e@));
    assert(y.subrange(0, 4) =~= be32(m.source));
    assert(y.subrange(4, 16) =~= words(m.p@));
    assert(y.subrange(16, 20) =~= be32(m.intensity));
    assert(k.subrange(1, 5) =~= be32(killer));
    assert(k.subrange(5, 9) =~= be32(victim));
}

/// A list yields as many records as it announces and as are there in whole: neither a
/// false count nor a cut datagram makes one out of nothing.
pub proof fn law_lists_yield_what_is_there(b: Seq<u8>, stride: int)
    requires
        b.len() >= 3,
        stride > 0,
    ensures
        list_count(b, stride) <= 256 * b[1] + b[2],
        3 + list_count(b, stride) * stride <= b.len(),
        list_count(b, stride) < 256 * b[1] + b[2] ==> 3 + (list_count(b, stride) + 1) * stride
            > b.len(),
{
    let room = (b.len() - 3) / stride;
    let n = list_count(b, stride) as int;
    assert(room * stride <= b.len() - 3 < (room + 1) * stride && room >= 0) by (nonlinear_arith)
        requires
            room == (b.len() - 3) / stride,
            stride > 0,
            b.len() >= 3,
    ;
    assert(n * stride <= room * stride) by (nonlinear_arith)
        requires
            n <= room,
            stride > 0,
    ;
}

/// A snapshot yields as many players as it announces and as are there in whole.
pub proof fn law_snapshots_yield_what_is_there(b: Seq<u8>)
    requires
        b.len() >= 20,
    ensures
        0 <= snapshot_slen(b) <= STATE_MAX,
        b[19] <= STATE_MAX ==> snapshot_slen(b) == b[19],
        player_stride(snapshot_slen(b)) == 4 + 4 * snapshot_slen(b) + 4 * META_LEN + NAME_MAX,
        snapshot_count(b) <= 256 * b[17] + b[18],
        20 + snapshot_count(b) * player_stride(snapshot_slen(b)) <= b.len(),
        snapshot_count(b) < 256 * b[17] + b[18] ==> 20 + (snapshot_count(b) + 1) * player_stride(
            snapshot_slen(b),
        ) > b.len(),
{
    let stride = player_stride(snapshot_slen(b));
    let room = (b.len() - 20) / stride;
    let n = snapshot_count(b) as int;
    assert(room * stride <= b.len() - 20 < (room + 1) * stride && room >= 0) by (nonlinear_arith)
        requires
            room == (b.len() - 20) / stride,
            stride > 0,
            b.len() >= 20,
    ;
    assert(n * stride <= room * stride) by (nonlinear_arith)
        requires
            n <= room,
            stride > 0,
    ;
}

/// A datagram is read as what its first byte says, and only where it is long enough to hold
/// it: none is read as two things.
pub proof fn law_datagrams_are_of_one_kind(b: Seq<u8>, len: int, slen: int, tag: u8)
    ensures
        is_input(b, len, slen) ==> b[0] == TAG_INPUT && b.len() >= 97 + 4 * len + 4 * slen,
        input_len(len, slen) == 97 + 4 * len + 4 * slen,
        player_stride(slen) == 96 + 4 * slen,
        is_snapshot(b) ==> b[0] == TAG_SNAPSHOT && b.len() >= 20,
        is_fire(b) ==> b[0] == TAG_FIRE && b.len() >= 30,
        is_hit(b) ==> b[0] == TAG_HIT && b.len() >= 17,
        is_projectile(b) ==> b[0] == TAG_PROJECTILE && b.len() >= 26,
        is_kill(b) ==> b[0] == TAG_KILL && b.len() >= 9,
        is_list(b, tag) ==> b[0] == tag && b.len() >= 3,
        is_fire(b) ==> !is_hit(b) && !is_projectile(b) && !is_kill(b) && !is_snapshot(b),
        is_hit(b) ==> !is_kill(b) && !is_projectile(b) && !is_snapshot(b),
        is_projectile(b) ==> !is_kill(b) && !is_snapshot(b) && !is_input(b, len, slen),
{
}

/// Bytes behind a datagram do not change what it is.
pub proof fn law_longer_datagrams_stay_what_they_are(
    b: Seq<u8>,
    more: Seq<u8>,
    len: int,
    slen: int,
    tag: u8,
)
    requires
        0 <= len,
        0 <= slen,
    ensures
        is_input(b, len, slen) ==> is_input(b + more, len, slen),
        is_snapshot(b) ==> is_snapshot(b + more),
        is_fire(b) ==> is_fire(b + more),
        is_hit(b) ==> is_hit(b + more),
        is_projectile(b) ==> is_projectile(b + more),
        is_kill(b) ==> is_kill(b + more),
        is_list(b, tag) ==> is_list(b + more, tag),
{
    if b.len() > 0 {
        assert((b + more)[0] == b[0]);
    }
}

/// Words that were not sent are zero, and those that were stay in their places.
pub proof fn law_words_not_sent_are_zero(ws: Seq<u32>, n: int, i: int)
    requires
        0 <= i < n,
    ensures
        zero_ext(ws, n).len() == n,
        i < ws.len() ==> zero_ext(ws, n)[i] == ws[i],
        i >= ws.len() ==> zero_ext(ws, n)[i] == 0,
{
}

} // verus!
