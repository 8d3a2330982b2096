//! How work is cut up: the ranges of a data-parallel loop, the steps a frame
//! owes the fixed clock, and the order in which a schedule's layers run.
use vstd::arithmetic::div_mod::*;
use vstd::arithmetic::mul::*;
use vstd::prelude::*;

verus! {

/// Most fixed steps one frame may run before the rest of the debt is written off.
pub const MAX_CATCHUP_STEPS: i64 = 8;

/// How many workers serve `n` items where the machine offers `offered`.
pub open spec fn workers(n: int, offered: int) -> int {
    if offered < n {
        offered
    } else {
        n
    }
}

/// Items per worker, the last one possibly short.
pub open spec fn share(n: int, offered: int) -> int {
    (n + workers(n, offered) - 1) / workers(n, offered)
}

/// The range of worker `t`: from its start up to its end.
pub open spec fn range_of(n: int, offered: int, t: int) -> (int, int) {
    (
        t * share(n, offered),
        if (t + 1) * share(n, offered) < n {
            (t + 1) * share(n, offered)
        } else {
            n
        },
    )
}

proof fn lemma_share(n: int, offered: int)
    requires
        n > 0,
        offered > 0,
    ensures
        share(n, offered) >= 1,
        n <= workers(n, offered) * share(n, offered) < n + workers(n, offered),
{
    let w = workers(n, offered);
    let s = share(n, offered);
    lemma_fundamental_div_mod(n + w - 1, w);
    lemma_mod_bound(n + w - 1, w);
    assert(w * s >= 1);
    if s <= 0 {
        lemma_mul_inequality(s, 0, w);
        assert(s * w == w * s) by (nonlinear_arith);
        assert(false);
    }
}

/// Cut `0..n` into one range per worker. A worker for which nothing is left gets
/// a range whose end does not come after its start.
pub fn par_ranges(n: usize, offered: usize) -> (r: Vec<(usize, usize)>)
    requires
        offered > 0,
        n <= usize::MAX / 2,
    ensures
        n == 0 ==> r@.len() == 0,
        n > 0 ==> r@.len() == workers(n as int, offered as int),
        forall|t: int|
            0 <= t < r@.len() ==> (#[trigger] r@[t]).0 == range_of(n as int, offered as int, t).0
                && r@[t].1 == range_of(n as int, offered as int, t).1,
{
    let mut r: Vec<(usize, usize)> = Vec::new();
    if n == 0 {
        return r;
    }
    let threads: usize = if offered < n {
        offered
    } else {
        n
    };
    let chunk: usize = (n + (threads - 1)) / threads;
    proof {
        lemma_share(n as int, offered as int);
    }
    let mut t: usize = 0;
    while t < threads
        invariant
            t <= threads,
            0 < threads <= n <= usize::MAX / 2,
            threads == workers(n as int, offered as int),
            chunk == share(n as int, offered as int),
            threads * chunk < n + threads,
            r@.len() == t,
            forall|k: int|
                0 <= k < t ==> (#[trigger] r@[k]).0 == range_of(n as int, offered as int, k).0
                    && r@[k].1 == range_of(n as int, offered as int, k).1,
        decreases threads - t,
    {
        proof {
            lemma_mul_inequality(t + 1, threads as int, chunk as int);
            lemma_mul_inequality(t as int, t + 1, chunk as int);
            assert(t * chunk >= 0) by (nonlinear_arith);
        }
        let start: usize = t * chunk;
        let full: usize = (t + 1) * chunk;
        let end: usize = if full < n {
            full
        } else {
            n
        };
        r.push((start, end));
        t += 1;
    }
    r
}

/// Each item belongs to exactly one worker's range: no item is skipped and no two
/// workers write the same slot.
pub proof fn law_ranges_partition(n: int, offered: int, i: int)
    requires
        offered > 0,
        0 <= i < n,
    ensures
        exists|t: int|
            0 <= t < workers(n, offered) && (#[trigger] range_of(n, offered, t)).0 <= i < range_of(
                n,
                offered,
                t,
            ).1,
        forall|t: int, u: int|
            0 <= t < workers(n, offered) && 0 <= u < workers(n, offered) && (#[trigger] range_of(
                n,
                offered,
                t,
            )).0 <= i < range_of(n, offered, t).1 && (#[trigger] range_of(n, offered, u)).0 <= i
                < range_of(n, offered, u).1 ==> t == u,
{
    lemma_share(n, offered);
    let s = share(n, offered);
    let w = workers(n, offered);
    let t = i / s;
    lemma_fundamental_div_mod(i, s);
    lemma_mod_bound(i, s);
    lemma_div_pos_is_pos(i, s);
    assert(s * t == t * s && (t + 1) * s == t * s + s) by (nonlinear_arith);
    if t >= w {
        lemma_mul_inequality(w, t, s);
        assert(false);
    }
    assert(range_of(n, offered, t).0 <= i < range_of(n, offered, t).1);
    assert forall|a: int, b: int|
        0 <= a < w && 0 <= b < w && (#[trigger] range_of(n, offered, a)).0 <= i < range_of(
            n,
            offered,
            a,
        ).1 && (#[trigger] range_of(n, offered, b)).0 <= i < range_of(n, offered, b).1 implies a
        == b by {
        if a < b {
            lemma_mul_inequality(a + 1, b, s);
        } else if b < a {
            lemma_mul_inequality(b + 1, a, s);
        }
    }
}

/// How a batch of systems is run.
#[derive(Clone, Copy, PartialEq, Eq, Structural, Debug)]
pub enum Batch {
    /// No systems.
    Nothing,
    /// One system: on this thread, with no routing.
    Inline,
    /// Several, on workers that share the world this thread is already bound to.
    Inherit,
    /// Several, on workers that share this thread's own world.
    Own,
}

/// Decide how `n` systems run on a thread that may itself be a worker.
pub fn run_parallel(n: i64, is_worker: bool) -> (r: Batch)
    ensures
        r == (if n <= 0 {
            Batch::Nothing
        } else if n == 1 {
            Batch::Inline
        } else if is_worker {
            Batch::Inherit
        } else {
            Batch::Own
        }),
{
    if n <= 0 {
        Batch::Nothing
    } else if n == 1 {
        Batch::Inline
    } else if is_worker {
        Batch::Inherit
    } else {
        Batch::Own
    }
}

/// The fixed clock's whole-number half: how many ticks have run.
pub struct FixedClock {
    pub ticks: i64,
}

/// What a frame that owes `want` whole steps runs.
pub open spec fn steps_run(want: int) -> int {
    if want < MAX_CATCHUP_STEPS {
        want
    } else {
        MAX_CATCHUP_STEPS as int
    }
}

impl FixedClock {
    pub fn new() -> (c: FixedClock)
        ensures
            c.ticks == 0,
    {
        FixedClock { ticks: 0 }
    }

    /// Grant a frame that owes `want` whole steps its steps. Returns how many run
    /// and whether the rest of the debt is written off.
    pub fn advance(&mut self, want: i64) -> (r: (i64, bool))
        requires
            i64::MIN <= old(self).ticks + steps_run(want as int) <= i64::MAX,
        ensures
            r.0 == steps_run(want as int),
            r.1 == (want > MAX_CATCHUP_STEPS),
            final(self).ticks == old(self).ticks + r.0,
    {
        let run: i64 = if want < MAX_CATCHUP_STEPS {
            want
        } else {
            MAX_CATCHUP_STEPS
        };
        self.ticks = self.ticks + run;
        (run, want > run)
    }
}

/// The length of the current frame, once it was asked for.
pub struct FrameClock {
    /// The bits of its number of seconds.
    pub measured: Option<u64>,
}

/// Where a frame's length comes from.
#[derive(Clone, Copy, PartialEq, Eq, Structural, Debug)]
pub enum Measure {
    /// It was measured before in this frame.
    Known(u64),
    /// The pinned step; virtual time advances by it.
    Pinned(u64),
    /// The wall clock.
    Wall,
}

/// How a frame's length is answered for, where `measured` is what it was found to be
/// and `pinned` the step frames are pinned to.
pub open spec fn answer(measured: Option<u64>, pinned: Option<u64>) -> Measure {
    match (measured, pinned) {
        (Some(dt), _) => Measure::Known(dt),
        (None, Some(dt)) => Measure::Pinned(dt),
        (None, None) => Measure::Wall,
    }
}

/// What is known of a frame's length once it was asked for.
pub open spec fn settled(measured: Option<u64>, pinned: Option<u64>) -> Option<u64> {
    match measured {
        Some(dt) => Some(dt),
        None => pinned,
    }
}

/// Once its length is settled a frame keeps it, however often it is asked for and
/// whatever frames are pinned to by then; so virtual time advances once.
pub proof fn law_a_frame_has_one_length(
    measured: Option<u64>,
    pinned: Option<u64>,
    later: Option<u64>,
)
    requires
        settled(measured, pinned) is Some,
    ensures
        answer(settled(measured, pinned), later) == Measure::Known(settled(measured, pinned)->0),
        settled(settled(measured, pinned), later) == settled(measured, pinned),
{
}

impl FrameClock {
    pub fn new() -> (c: FrameClock)
        ensures
            c.measured is None,
    {
        FrameClock { measured: None }
    }

    /// How to answer for this frame's length, where `pinned` is the step frames are
    /// pinned to. However often it is asked, a frame has one length and virtual time
    /// advances once.
    pub fn frame_dt(&mut self, pinned: Option<u64>) -> (m: Measure)
        ensures
            m == answer(old(self).measured, pinned),
            final(self).measured == settled(old(self).measured, pinned),
    {
        if let Some(dt) = self.measured {
            return Measure::Known(dt);
        }
        match pinned {
            Some(dt) => {
                self.measured = Some(dt);
                Measure::Pinned(dt)
            },
            None => Measure::Wall,
        }
    }

    /// Keep what the wall clock gave for this frame.
    pub fn measure(&mut self, dt: u64)
        ensures
            final(self).measured == Some(dt),
    {
        self.measured = Some(dt);
    }

    /// The frame is over: the next one is measured afresh.
    pub fn end_frame(&mut self)
        ensures
            final(self).measured is None,
    {
        self.measured = None;
    }
}

/// A layer's length; a negative one counts as none.
pub open spec fn layer_len(l: i64) -> int {
    if l > 0 {
        l as int
    } else {
        0
    }
}

/// Systems in the first `n` layers.
pub open spec fn before_layer(lens: Seq<i64>, n: int) -> int
    decreases n,
{
    if n <= 0 {
        0
    } else {
        before_layer(lens, n - 1) + layer_len(lens[n - 1])
    }
}

/// The windows of the first `n` layers: where each one that has systems starts in
/// the flat list, and how many it has.
pub open spec fn windows(lens: Seq<i64>, n: int) -> Seq<(int, int)>
    decreases n,
{
    if n <= 0 {
        Seq::empty()
    } else if lens[n - 1] > 0 {
        windows(lens, n - 1).push((before_layer(lens, n - 1), layer_len(lens[n - 1])))
    } else {
        windows(lens, n - 1)
    }
}

/// `w`, `k` times over.
pub open spec fn repeated(w: Seq<(int, int)>, k: int) -> Seq<(int, int)>
    decreases k,
{
    if k <= 0 {
        Seq::empty()
    } else {
        repeated(w, k - 1) + w
    }
}

/// A plan as numbers.
pub open spec fn as_ints(w: Seq<(usize, usize)>) -> Seq<(int, int)> {
    w.map_values(|p: (usize, usize)| (p.0 as int, p.1 as int))
}

proof fn lemma_before_layer(lens: Seq<i64>, n: int, m: int)
    requires
        0 <= n <= m,
    ensures
        0 <= before_layer(lens, n) <= before_layer(lens, m),
    decreases m,
{
    if n < m {
        lemma_before_layer(lens, n, m - 1);
    } else if n > 0 {
        lemma_before_layer(lens, n - 1, n - 1);
    }
}

/// The batches a frame runs: the schedule's layers in order, once per step. Each
/// entry is a window into the flat list of systems.
pub fn fixed_plan(lens: &[i64], steps: i64) -> (plan: Vec<(usize, usize)>)
    requires
        before_layer(lens@, lens@.len() as int) <= usize::MAX,
    ensures
        as_ints(plan@) == repeated(windows(lens@, lens@.len() as int), steps as int),
{
    let mut plan: Vec<(usize, usize)> = Vec::new();
    let ghost w = windows(lens@, lens@.len() as int);
    let mut s: i64 = 0;
    assert(as_ints(plan@) =~= repeated(w, 0));
    while s < steps
        invariant
            0 <= s,
            s <= steps || s == 0,
            w == windows(lens@, lens@.len() as int),
            before_layer(lens@, lens@.len() as int) <= usize::MAX,
            as_ints(plan@) == repeated(w, s as int),
        decreases steps - s,
    {
        let ghost done = as_ints(plan@);
        let mut at: usize = 0;
        let mut i: usize = 0;
        while i < lens.len()
            invariant
                i <= lens@.len(),
                at == before_layer(lens@, i as int),
                before_layer(lens@, lens@.len() as int) <= usize::MAX,
                as_ints(plan@) == done + windows(lens@, i as int),
            decreases lens@.len() - i,
        {
            proof {
                lemma_before_layer(lens@, i + 1, lens@.len() as int);
            }
            let l: i64 = lens[i];
            let ghost before = plan@;
            if l > 0 {
                let len: usize = l as usize;
                plan.push((at, len));
                assert(as_ints(plan@) =~= as_ints(before).push((at as int, len as int)));
                at = at + len;
            }
            i += 1;
            assert(as_ints(plan@) =~= done + windows(lens@, i as int));
        }
        s += 1;
    }
    assert(s <= steps ==> s == steps);
    plan
}

/// One step runs every system exactly once and in order: the windows start at the
/// first system, each begins where the one before it ended, and the last ends at
/// the last system.
pub proof fn law_a_step_runs_the_whole_schedule(lens: Seq<i64>)
    ensures
        ({
            let w = windows(lens, lens.len() as int);
            let total = before_layer(lens, lens.len() as int);
            &&& forall|k: int| 0 <= k < w.len() ==> (#[trigger] w[k]).1 > 0
            &&& w.len() == 0 ==> total == 0
            &&& w.len() > 0 ==> w[0].0 == 0 && w[w.len() - 1].0 + w[w.len() - 1].1 == total
            &&& forall|k: int|
                0 <= k < w.len() - 1 ==> #[trigger] w[k].0 + w[k].1 == w[k + 1].0
        }),
{
    lemma_windows(lens, lens.len() as int);
}

proof fn lemma_windows(lens: Seq<i64>, n: int)
    requires
        0 <= n <= lens.len(),
    ensures
        ({
            let w = windows(lens, n);
            let total = before_layer(lens, n);
            &&& forall|k: int| 0 <= k < w.len() ==> (#[trigger] w[k]).1 > 0
            &&& w.len() == 0 ==> total == 0
            &&& w.len() > 0 ==> w[0].0 == 0 && w[w.len() - 1].0 + w[w.len() - 1].1 == total
            &&& forall|k: int|
                0 <= k < w.len() - 1 ==> #[trigger] w[k].0 + w[k].1 == w[k + 1].0
        }),
    decreases n,
{
    if n > 0 {
        lemma_windows(lens, n - 1);
    }
}

/// There are as many workers as the machine offers and as there is work for, and the
/// shares are as small as they can be for these workers to do it all.
pub proof fn law_shares_are_as_small_as_can_be(n: int, offered: int)
    requires
        n > 0,
        offered > 0,
    ensures
        1 <= workers(n, offered) <= n,
        workers(n, offered) <= offered,
        workers(n, offered) == n || workers(n, offered) == offered,
        n <= share(n, offered) * workers(n, offered),
        (share(n, offered) - 1) * workers(n, offered) < n,
{
    let (w, s) = (workers(n, offered), share(n, offered));
    assert(s * w <= n + w - 1 < (s + 1) * w) by (nonlinear_arith)
        requires
            s == (n + w - 1) / w,
            w > 0,
            n > 0,
    ;
    assert((s + 1) * w == s * w + w && (s - 1) * w == s * w - w) by (nonlinear_arith);
}

/// A frame runs the steps it owes, but never more than eight.
pub proof fn law_catching_up_is_bounded(want: int)
    ensures
        steps_run(want) <= want,
        steps_run(want) <= 8,
        steps_run(want) == want || steps_run(want) == 8,
{
}

/// A frame's length is what was found out, or else what frames are pinned to, and only
/// without either is the clock asked; once it is known it stays.
pub proof fn law_a_known_length_comes_first(dt: u64, pin: u64, pinned: Option<u64>)
    ensures
        answer(Some(dt), pinned) == Measure::Known(dt),
        answer(None, Some(pin)) == Measure::Pinned(pin),
        answer(None, None) == Measure::Wall,
        settled(Some(dt), pinned) == Some(dt),
        settled(None, Some(pin)) == Some(pin),
        settled(None, None) is None,
{
}

/// A schedule run several times over is that many times as long, and every round of it is
/// the schedule.
pub proof fn law_rounds_repeat_the_schedule(w: Seq<(int, int)>, k: int, r: int, i: int)
    requires
        0 <= r < k,
        0 <= i < w.len(),
    ensures
        repeated(w, k).len() == k * w.len(),
        r * w.len() + i < k * w.len(),
        repeated(w, k)[r * w.len() + i] == w[i],
    decreases k,
{
    let c = w.len() as int;
    lemma_rounds(w, k);
    lemma_rounds(w, k - 1);
    assert((k - 1) * c + c == k * c) by (nonlinear_arith);
    assert(0 <= r * c) by (nonlinear_arith)
        requires
            0 <= r,
            0 <= c,
    ;
    if r < k - 1 {
        law_rounds_repeat_the_schedule(w, k - 1, r, i);
    }
}

proof fn lemma_rounds(w: Seq<(int, int)>, k: int)
    requires
        0 <= k,
    ensures
        repeated(w, k).len() == k * w.len(),
    decreases k,
{
    let c = w.len() as int;
    if k > 0 {
        lemma_rounds(w, k - 1);
        assert((k - 1) * c + c == k * c) by (nonlinear_arith);
    } else {
        assert(0 * c == 0);
    }
}

/// A layer has as many systems as it says, and one that says a negative number has none.
pub proof fn law_layers_are_not_negative(l: i64, lens: Seq<i64>, n: int)
    requires
        0 <= n < lens.len(),
    ensures
        l >= 0 ==> layer_len(l) == l,
        l < 0 ==> layer_len(l) == 0,
        before_layer(lens, 0) == 0,
        lens[n] >= 0 ==> before_layer(lens, n + 1) == before_layer(lens, n) + lens[n],
        lens[n] < 0 ==> before_layer(lens, n + 1) == before_layer(lens, n),
{
}

/// What is told of a plan is where every window starts and how many it holds, in order.
pub proof fn law_plans_are_told_whole(w: Seq<(usize, usize)>, i: int)
    requires
        0 <= i < w.len(),
    ensures
        as_ints(w).len() == w.len(),
        as_ints(w)[i].0 == w[i].0,
        as_ints(w)[i].1 == w[i].1,
{
}

} // verus!
