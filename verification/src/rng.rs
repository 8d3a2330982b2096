//! The seeded random stream: the same seed gives the same numbers everywhere.
use vstd::prelude::*;

verus! {

/// The seed of a program that sets none.
pub const DEFAULT_SEED: u64 = 0x9E37_79B9_7F4A_7C15;

/// What the state gains with every draw.
pub const GAMMA: u64 = 0x9E37_79B9_7F4A_7C15;

pub struct Rng {
    pub state: u64,
}

/// The number drawn when the state has become `s`.
pub open spec fn mix(s: u64) -> u64 {
    let a = (s ^ (s >> 30)).wrapping_mul(0xBF58_476D_1CE4_E5B9);
    let b = (a ^ (a >> 27)).wrapping_mul(0x94D0_49BB_1331_11EB);
    b ^ (b >> 31)
}

/// The state after `k` draws from `seed`.
pub open spec fn state_after(seed: u64, k: nat) -> u64
    decreases k,
{
    if k == 0 {
        seed
    } else {
        state_after(seed, (k - 1) as nat).wrapping_add(GAMMA)
    }
}

/// The `k`-th number drawn from `seed`, counting from zero.
pub open spec fn draw(seed: u64, k: nat) -> u64 {
    mix(state_after(seed, k + 1))
}

impl Rng {
    pub fn new() -> (r: Rng)
        ensures
            r.state == DEFAULT_SEED,
    {
        Rng { state: DEFAULT_SEED }
    }

    /// Restart the stream from a seed.
    pub fn srand(&mut self, seed: i64)
        ensures
            final(self).state == seed as u64,
    {
        self.state = #[verifier::truncate]
        (seed as u64);
    }

    /// The next 64 bits.
    pub fn next_u64(&mut self) -> (z: u64)
        ensures
            final(self).state == old(self).state.wrapping_add(GAMMA),
            z == mix(final(self).state),
            z == draw(old(self).state, 0),
    {
        proof {
            reveal_with_fuel(state_after, 2);
        }
        let s: u64 = self.state.wrapping_add(GAMMA);
        self.state = s;
        let a: u64 = (s ^ (s >> 30)).wrapping_mul(0xBF58_476D_1CE4_E5B9);
        let b: u64 = (a ^ (a >> 27)).wrapping_mul(0x94D0_49BB_1331_11EB);
        b ^ (b >> 31)
    }

    /// The 53 bits of a uniform number in `[0, 1)`: the number is this over 2^53.
    pub fn rand_bits(&mut self) -> (r: u64)
        ensures
            final(self).state == old(self).state.wrapping_add(GAMMA),
            r == draw(old(self).state, 0) / 2048,
            r < 0x20_0000_0000_0000,
    {
        let z: u64 = self.next_u64();
        assert(z >> 11 == z / 2048) by (bit_vector);
        assert(z >> 11 < 0x20_0000_0000_0000) by (bit_vector);
        z >> 11
    }

    /// An integer of `lo..=hi`. Where the range is empty or a single number, it is
    /// `lo` and nothing is drawn.
    pub fn rand_int(&mut self, lo: i64, hi: i64) -> (r: i64)
        ensures
            hi <= lo ==> r == lo && final(self).state == old(self).state,
            hi > lo ==> {
                &&& r == lo + draw(old(self).state, 0) as int % (hi - lo + 1)
                &&& lo <= r <= hi
                &&& final(self).state == old(self).state.wrapping_add(GAMMA)
            },
    {
        if hi > lo {
            let span: u128 = (hi as i128 - lo as i128) as u128 + 1;
            let z: u64 = self.next_u64();
            let k: u128 = z as u128 % span;
            (lo as i128 + k as i128) as i64
        } else {
            lo
        }
    }
}

/// The same seed gives the same sequence: what is drawn next depends on the seed
/// and on how many numbers were drawn before, and on nothing else.
pub proof fn law_same_seed_same_sequence(seed: u64, state: u64, k: nat, j: nat)
    requires
        state == state_after(seed, k),
    ensures
        draw(state, j) == draw(seed, k + j),
{
    lemma_states_compose(seed, k, j + 1);
}

proof fn lemma_states_compose(seed: u64, k: nat, j: nat)
    ensures
        state_after(state_after(seed, k), j) == state_after(seed, k + j),
    decreases j,
{
    if j > 0 {
        lemma_states_compose(seed, k, (j - 1) as nat);
    }
}

/// Different seeds diverge: no draw of theirs is the same, however many were drawn before.
pub proof fn law_different_seeds_diverge(a: u64, b: u64, k: nat)
    requires
        a != b,
    ensures
        draw(a, k) != draw(b, k),
{
    lemma_states_differ(a, b, k + 1);
    lemma_mix_differs(state_after(a, k + 1), state_after(b, k + 1));
}

proof fn lemma_states_differ(a: u64, b: u64, k: nat)
    requires
        a != b,
    ensures
        state_after(a, k) != state_after(b, k),
    decreases k,
{
    if k > 0 {
        lemma_states_differ(a, b, (k - 1) as nat);
    }
}

/// Different states give different numbers.
proof fn lemma_mix_differs(s: u64, t: u64)
    ensures
        mix(s) == mix(t) ==> s == t,
{
    let (c, d) = (0xBF58_476D_1CE4_E5B9u64, 0x94D0_49BB_1331_11EBu64);
    let (p, q) = (s ^ (s >> 30), t ^ (t >> 30));
    let (a, b) = (p.wrapping_mul(c), q.wrapping_mul(c));
    let (e, f) = (a ^ (a >> 27), b ^ (b >> 27));
    let (g, h) = (e.wrapping_mul(d), f.wrapping_mul(d));
    assert(g ^ (g >> 31) == h ^ (h >> 31) ==> g == h) by (bit_vector);
    lemma_factor(e as int, f as int, d as int, 0x3196_42B2_D24D_8EC3, 0x1CD3_36ED_A85F_1453);
    assert(a ^ (a >> 27) == b ^ (b >> 27) ==> a == b) by (bit_vector);
    lemma_factor(p as int, q as int, c as int, 0x96DE_1B17_3F11_9089, 0x70C3_BCA7_8F27_F46C);
    assert(s ^ (s >> 30) == t ^ (t >> 30) ==> s == t) by (bit_vector);
}

/// A factor that has an inverse can be taken off both sides.
proof fn lemma_factor(x: int, y: int, c: int, inverse: int, over: int)
    requires
        0 <= x < 0x1_0000_0000_0000_0000,
        0 <= y < 0x1_0000_0000_0000_0000,
        c * inverse == 1 + over * 0x1_0000_0000_0000_0000,
    ensures
        (x * c) % 0x1_0000_0000_0000_0000 == (y * c) % 0x1_0000_0000_0000_0000 ==> x == y,
{
    let m = 0x1_0000_0000_0000_0000int;
    if (x * c) % m == (y * c) % m {
        let (u, v) = ((x * c) / m, (y * c) / m);
        assert(x * c - y * c == (u - v) * m);
        assert((x - y) * c == (u - v) * m) by (nonlinear_arith)
            requires
                x * c - y * c == (u - v) * m,
        ;
        assert((x - y) * (c * inverse) == (u - v) * inverse * m) by (nonlinear_arith)
            requires
                (x - y) * c == (u - v) * m,
        ;
        let z = (u - v) * inverse - (x - y) * over;
        assert(x - y == z * m) by (nonlinear_arith)
            requires
                (x - y) * (c * inverse) == (u - v) * inverse * m,
                c * inverse == 1 + over * m,
                z == (u - v) * inverse - (x - y) * over,
        ;
        assert(z == 0);
    }
}

} // verus!
