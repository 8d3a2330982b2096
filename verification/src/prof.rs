//! The instrumenting profiler: call counts and time per function.
use vstd::prelude::*;

verus! {

broadcast use vstd::seq_lib::group_to_multiset_ensures;

/// One row of a profile: a function, how often it was called and for how many
/// nanoseconds in all.
#[derive(Clone, Debug)]
pub struct ProfRow {
    pub func: String,
    pub calls: u64,
    pub nanos: u128,
}

pub struct Profiler {
    /// The calls in progress, innermost last, each with when it began.
    pub stack: Vec<(String, u128)>,
    /// One row per function that has returned, in the order they first did.
    pub totals: Vec<ProfRow>,
}

/// A row by its values.
pub open spec fn row(r: ProfRow) -> (Seq<char>, u64, u128) {
    (r.func@, r.calls, r.nanos)
}

pub open spec fn rows(s: Seq<ProfRow>) -> Seq<(Seq<char>, u64, u128)> {
    Seq::new(s.len(), |i: int| row(s[i]))
}

/// Whether some row is for `name`.
pub open spec fn listed(s: Seq<ProfRow>, name: Seq<char>) -> bool {
    exists|i: int| 0 <= i < s.len() && (#[trigger] s[i]).func@ == name
}

/// Longest first.
pub open spec fn by_time(s: Seq<ProfRow>) -> bool {
    forall|i: int, j: int|
        0 <= i <= j < s.len() ==> (#[trigger] s[i]).nanos >= (#[trigger] s[j]).nanos
}

/// Time passed from `start` to `now`; none where the clock did not advance.
pub open spec fn elapsed(start: int, now: int) -> int {
    if now > start {
        now - start
    } else {
        0
    }
}

/// The calls in progress by their values.
pub open spec fn open_stack(s: Seq<(String, u128)>) -> Seq<(Seq<char>, u128)> {
    Seq::new(s.len(), |i: int| (s[i].0@, s[i].1))
}

/// What entering a function does.
pub open spec fn entered(before: Profiler, name: Seq<char>, now: u128, after: Profiler) -> bool {
    &&& after.totals == before.totals
    &&& open_stack(after.stack@) == open_stack(before.stack@).push((name, now))
}

/// What a return does: the innermost call is over, and its function's row, a new one
/// where there was none, gains a call and the time it took. With no call in progress
/// nothing happens.
pub open spec fn exited(before: Profiler, now: u128, after: Profiler) -> bool {
    let name = open_stack(before.stack@).last().0;
    let ns = elapsed(open_stack(before.stack@).last().1 as int, now as int);
    &&& after.wf()
    &&& before.stack@.len() == 0 ==> after == before
    &&& before.stack@.len() > 0 ==> {
        &&& open_stack(after.stack@) == open_stack(before.stack@).drop_last()
        &&& after.totals@.len() == before.totals@.len() + (if listed(before.totals@, name) {
            0int
        } else {
            1
        })
        &&& forall|i: int|
            0 <= i < before.totals@.len() ==> {
                &&& (#[trigger] after.totals@[i]).func@ == before.totals@[i].func@
                &&& after.totals@[i].calls == before.totals@[i].calls + (if before.totals@[i].func@
                    == name {
                    1int
                } else {
                    0
                })
                &&& after.totals@[i].nanos == before.totals@[i].nanos + (if before.totals@[i].func@
                    == name {
                    ns
                } else {
                    0
                })
            }
        &&& !listed(before.totals@, name) ==> row(after.totals@.last()) == (name, 1u64, ns as u128)
            && after.totals@.last().nanos == ns
    }
}

impl Profiler {
    /// No function has two rows.
    pub open spec fn wf(self) -> bool {
        forall|i: int, j: int|
            0 <= i < j < self.totals@.len() ==> (#[trigger] self.totals@[i]).func@ != (
            #[trigger] self.totals@[j]).func@
    }

    /// Whether one more call of `name`, of `ns` nanoseconds, can be counted.
    pub open spec fn room(self, name: Seq<char>, ns: int) -> bool {
        forall|i: int|
            0 <= i < self.totals@.len() && (#[trigger] self.totals@[i]).func@ == name
                ==> self.totals@[i].calls < u64::MAX && self.totals@[i].nanos + ns <= u128::MAX
    }

    pub fn new() -> (p: Profiler)
        ensures
            p.wf(),
            p.stack@.len() == 0,
            p.totals@.len() == 0,
    {
        Profiler { stack: Vec::new(), totals: Vec::new() }
    }

    /// A function is entered.
    pub fn prof_enter(&mut self, name: String, now: u128)
        ensures
            entered(*old(self), name@, now, *final(self)),
            final(self).stack@ == old(self).stack@.push((name, now)),
    {
        self.stack.push((name, now));
        assert(open_stack(self.stack@) =~= open_stack(old(self).stack@).push((name@, now)));
    }

    /// The innermost function returns: its row gains a call and the time it took.
    /// With no call in progress nothing happens.
    pub fn prof_exit(&mut self, now: u128)
        requires
            old(self).wf(),
            old(self).stack@.len() > 0 ==> old(self).room(
                old(self).stack@.last().0@,
                elapsed(old(self).stack@.last().1 as int, now as int),
            ),
        ensures
            exited(*old(self), now, *final(self)),
    {
        let ghost a = *self;
        if self.stack.len() == 0 {
            return;
        }
        if let Some((name, start)) = self.stack.pop() {
            let ns: u128 = if now > start {
                now - start
            } else {
                0
            };
            let mut i: usize = 0;
            while i < self.totals.len()
                invariant
                    i <= self.totals@.len(),
                    self.totals@ == a.totals@,
                    self.stack@ == a.stack@.drop_last(),
                    a.wf(),
                    a.stack@.len() > 0,
                    a.stack@.last() == (name, start),
                    ns == elapsed(start as int, now as int),
                    a.room(name@, ns as int),
                    *old(self) == a,
                    forall|k: int|
                        0 <= k < i ==> (#[trigger] a.totals@[k]).func@ != name@,
                decreases self.totals@.len() - i,
            {
                if self.totals[i].func == name {
                    assert(a.totals@[i as int].calls < u64::MAX);
                    self.totals[i].calls = self.totals[i].calls + 1;
                    self.totals[i].nanos = self.totals[i].nanos + ns;
                    assert forall|k: int| 0 <= k < a.totals@.len() && k != i implies (
                    #[trigger] a.totals@[k]).func@ != name@ by {
                        if k > i {
                            assert(a.totals@[i as int].func@ != a.totals@[k].func@);
                        }
                    }
                    assert(self.totals@[i as int].func@ == a.totals@[i as int].func@);
                    assert(open_stack(self.stack@) =~= open_stack(a.stack@).drop_last());
                    assert(listed(a.totals@, name@));
                    assert forall|k: int|
                        0 <= k < a.totals@.len() && k != i implies self.totals@[k]
                        == #[trigger] a.totals@[k] by {}
                    return;
                }
                i += 1;
            }
            self.totals.push(ProfRow { func: name, calls: 1, nanos: ns });
            assert(open_stack(self.stack@) =~= open_stack(a.stack@).drop_last());
            assert(!listed(a.totals@, name@));
        }
    }
}

/// Forget everything measured.
pub fn prof_reset(p: &mut Profiler)
    ensures
        final(p).wf(),
        final(p).stack@.len() == 0,
        final(p).totals@.len() == 0,
{
    p.stack.clear();
    p.totals.clear();
}

/// The rows, longest total time first.
pub fn prof_report(p: &Profiler) -> (r: Vec<ProfRow>)
    ensures
        by_time(r@),
        rows(r@).to_multiset() == rows(p.totals@).to_multiset(),
{
    let mut out: Vec<ProfRow> = Vec::new();
    let mut i: usize = 0;
    assert(rows(out@) =~= rows(p.totals@.take(0)));
    while i < p.totals.len()
        invariant
            i <= p.totals@.len(),
            by_time(out@),
            rows(out@).to_multiset() == rows(p.totals@.take(i as int)).to_multiset(),
        decreases p.totals@.len() - i,
    {
        let x = &p.totals[i];
        let mut at: usize = 0;
        while at < out.len() && out[at].nanos >= x.nanos
            invariant
                at <= out@.len(),
                forall|k: int| 0 <= k < at ==> (#[trigger] out@[k]).nanos >= x.nanos,
            decreases out@.len() - at,
        {
            at += 1;
        }
        let ghost before = out@;
        let fresh = ProfRow { func: x.func.clone(), calls: x.calls, nanos: x.nanos };
        out.insert(at, fresh);
        proof {
            assert(rows(out@).remove(at as int) =~= rows(before));
            assert(rows(out@)[at as int] == row(*x));
            assert(rows(out@).to_multiset() =~= rows(before).to_multiset().insert(row(*x)));
            assert(rows(p.totals@.take(i + 1)) =~= rows(p.totals@.take(i as int)).push(row(*x)));
            assert forall|a: int, b: int| 0 <= a <= b < out@.len() implies (#[trigger] out@[a]).nanos
                >= (#[trigger] out@[b]).nanos by {
                if a < at && b > at {
                    assert(out@[b] == before[b - 1]);
                } else if a == at && b > at {
                    assert(out@[b] == before[b - 1]);
                    assert(before[at as int].nanos < x.nanos);
                    assert(before[at as int].nanos >= before[b - 1].nanos);
                } else if a > at {
                    assert(out@[a] == before[a - 1]);
                    assert(out@[b] == before[b - 1]);
                }
            }
        }
        i += 1;
    }
    assert(p.totals@.take(i as int) =~= p.totals@);
    out
}

/// The calls still open after the first `n` events of a history. An event is the
/// name of the function entered, or none for a return, and the time.
pub open spec fn open_calls(h: Seq<(Option<Seq<char>>, u128)>, n: int) -> Seq<(Seq<char>, u128)>
    decreases n,
{
    if n <= 0 {
        Seq::empty()
    } else {
        let before = open_calls(h, n - 1);
        match h[n - 1].0 {
            Some(name) => before.push((name, h[n - 1].1)),
            None => if before.len() == 0 {
                before
            } else {
                before.drop_last()
            },
        }
    }
}

/// How many calls of `name` were closed by the first `n` events.
pub open spec fn closed_calls(h: Seq<(Option<Seq<char>>, u128)>, name: Seq<char>, n: int) -> int
    decreases n,
{
    if n <= 0 {
        0
    } else {
        closed_calls(h, name, n - 1) + (if closes(h, name, n - 1) {
            1int
        } else {
            0
        })
    }
}

/// Whether event `k` closes a call of `name`.
pub open spec fn closes(h: Seq<(Option<Seq<char>>, u128)>, name: Seq<char>, k: int) -> bool {
    let before = open_calls(h, k);
    h[k].0 is None && before.len() > 0 && before.last().0 == name
}

/// How long those calls took together.
pub open spec fn closed_time(h: Seq<(Option<Seq<char>>, u128)>, name: Seq<char>, n: int) -> int
    decreases n,
{
    if n <= 0 {
        0
    } else {
        closed_time(h, name, n - 1) + (if closes(h, name, n - 1) {
            elapsed(open_calls(h, n - 1).last().1 as int, h[n - 1].1 as int)
        } else {
            0
        })
    }
}

/// Rows that say what the first `n` events of a history amount to: one for each
/// function with a closed call and for no other, with how often it was called and
/// for how long.
pub open spec fn tell(s: Seq<ProfRow>, h: Seq<(Option<Seq<char>>, u128)>, n: int) -> bool {
    &&& forall|i: int, j: int|
        0 <= i < j < s.len() ==> (#[trigger] s[i]).func@ != (#[trigger] s[j]).func@
    &&& forall|name: Seq<char>| #[trigger] listed(s, name) <==> closed_calls(h, name, n) > 0
    &&& forall|i: int|
        0 <= i < s.len() ==> (#[trigger] s[i]).calls == closed_calls(h, s[i].func@, n)
            && s[i].nanos == closed_time(h, s[i].func@, n)
}

/// `run` is what the profiler was from a reset on, before, between and after the
/// events of `h`.
pub open spec fn profiled(run: Seq<Profiler>, h: Seq<(Option<Seq<char>>, u128)>) -> bool {
    &&& run.len() == h.len() + 1
    &&& run[0].stack@.len() == 0
    &&& run[0].totals@.len() == 0
    &&& forall|k: int|
        0 <= k < h.len() ==> (match (#[trigger] h[k]).0 {
            Some(name) => entered(run[k], name, h[k].1, run[k + 1]),
            None => exited(run[k], h[k].1, run[k + 1]),
        })
}

/// The profiler's rows tell its history since the last reset, whatever calls were
/// made: every call that was entered and has returned is counted once, with its time,
/// and nothing else is.
pub proof fn law_totals_tell_the_history(
    run: Seq<Profiler>,
    h: Seq<(Option<Seq<char>>, u128)>,
    n: int,
)
    requires
        profiled(run, h),
        0 <= n <= h.len(),
    ensures
        open_stack(run[n].stack@) == open_calls(h, n),
        tell(run[n].totals@, h, n),
    decreases n,
{
    if n == 0 {
        assert(open_stack(run[0].stack@) =~= open_calls(h, 0));
    } else {
        law_totals_tell_the_history(run, h, n - 1);
        let (p, q) = (run[n - 1], run[n - 1 + 1]);
        let e = h[n - 1];
        let (s, t) = (p.totals@, q.totals@);
        lemma_closed_calls_count_up(h, n - 1);
        if e.0 is None && p.stack@.len() > 0 {
            let name = open_stack(p.stack@).last().0;
            assert(exited(p, e.1, q));
            assert forall|x: Seq<char>| #[trigger] listed(t, x) <==> closed_calls(h, x, n) > 0 by {
                assert(listed(s, x) <==> closed_calls(h, x, n - 1) > 0);
                assert(closes(h, x, n - 1) <==> x == name);
                if listed(s, x) {
                    let i = choose|i: int| 0 <= i < s.len() && (#[trigger] s[i]).func@ == x;
                    assert(t[i].func@ == x);
                }
                if x == name && !listed(s, name) {
                    assert(t[s.len() as int].func@ == x);
                }
                if listed(t, x) {
                    let i = choose|i: int| 0 <= i < t.len() && (#[trigger] t[i]).func@ == x;
                    if i < s.len() {
                        assert(s[i].func@ == x);
                    }
                }
            }
            assert forall|i: int| 0 <= i < t.len() implies (#[trigger] t[i]).calls == closed_calls(
                h,
                t[i].func@,
                n,
            ) && t[i].nanos == closed_time(h, t[i].func@, n) by {
                assert(closes(h, t[i].func@, n - 1) <==> t[i].func@ == name);
                if i < s.len() {
                    assert(t[i].func@ == s[i].func@);
                } else {
                    assert(t[i] == t.last());
                    assert(!listed(s, name));
                    lemma_uncalled_takes_no_time(h, name, n - 1);
                }
            }
        } else {
            assert forall|x: Seq<char>|
                #![trigger closed_calls(h, x, n)]
                #![trigger closed_time(h, x, n)]
                closed_calls(h, x, n) == closed_calls(h, x, n - 1) && closed_time(h, x, n)
                    == closed_time(h, x, n - 1) by {
                assert(!closes(h, x, n - 1));
            }
            assert forall|x: Seq<char>| #[trigger] listed(t, x) <==> closed_calls(h, x, n) > 0 by {
                assert(listed(s, x) <==> closed_calls(h, x, n - 1) > 0);
            }
        }
    }
}

proof fn lemma_closed_calls_count_up(h: Seq<(Option<Seq<char>>, u128)>, n: int)
    ensures
        forall|name: Seq<char>| #[trigger] closed_calls(h, name, n) >= 0,
    decreases n,
{
    if n > 0 {
        lemma_closed_calls_count_up(h, n - 1);
        assert forall|name: Seq<char>| #[trigger] closed_calls(h, name, n) >= 0 by {
            assert(closed_calls(h, name, n - 1) >= 0);
        }
    }
}

proof fn lemma_uncalled_takes_no_time(h: Seq<(Option<Seq<char>>, u128)>, name: Seq<char>, n: int)
    requires
        closed_calls(h, name, n) <= 0,
    ensures
        closed_calls(h, name, n) == 0,
        closed_time(h, name, n) == 0,
    decreases n,
{
    if n > 0 {
        lemma_closed_calls_count_up(h, n - 1);
        assert(closed_calls(h, name, n - 1) >= 0);
        lemma_uncalled_takes_no_time(h, name, n - 1);
    }
}

/// A report tells what the totals tell: the same rows, no function twice, the longest
/// first.
pub proof fn law_report_tells_the_history(
    totals: Seq<ProfRow>,
    report: Seq<ProfRow>,
    h: Seq<(Option<Seq<char>>, u128)>,
    n: int,
)
    requires
        tell(totals, h, n),
        by_time(report),
        rows(report).to_multiset() == rows(totals).to_multiset(),
    ensures
        by_time(report),
        tell(report, h, n),
        report.len() == totals.len(),
{
    let (a, b) = (rows(totals), rows(report));
    assert(a.len() == a.to_multiset().len() && b.len() == b.to_multiset().len());
    assert(a.no_duplicates()) by {
        assert forall|i: int, j: int| 0 <= i < j < a.len() implies a[i] != a[j] by {
            assert(totals[i].func@ != totals[j].func@);
        }
    }
    a.lemma_multiset_has_no_duplicates();
    assert(b.no_duplicates()) by {
        b.lemma_multiset_has_no_duplicates_conv();
    }
    assert forall|i: int| 0 <= i < report.len() implies exists|j: int|
        0 <= j < totals.len() && #[trigger] row(totals[j]) == row(#[trigger] report[i]) by {
        assert(b[i] == row(report[i]));
        assert(b.to_multiset().count(b[i]) > 0);
        assert(a.contains(b[i]));
        let j = choose|j: int| 0 <= j < a.len() && a[j] == b[i];
        assert(row(totals[j]) == row(report[i]));
    }
    assert forall|i: int| 0 <= i < report.len() implies (#[trigger] report[i]).calls
        == closed_calls(h, report[i].func@, n) && report[i].nanos == closed_time(
        h,
        report[i].func@,
        n,
    ) by {
        let j = choose|j: int|
            0 <= j < totals.len() && #[trigger] row(totals[j]) == row(report[i]);
        assert(totals[j].calls == closed_calls(h, totals[j].func@, n));
    }
    assert forall|i: int, j: int| 0 <= i < j < report.len() implies (#[trigger] report[i]).func@
        != (#[trigger] report[j]).func@ by {
        if report[i].func@ == report[j].func@ {
            assert(report[i].calls == report[j].calls);
            assert(report[i].nanos == report[j].nanos);
            assert(b[i] == b[j]);
        }
    }
    assert forall|x: Seq<char>| #[trigger] listed(report, x) <==> closed_calls(h, x, n) > 0 by {
        if listed(report, x) {
            let i = choose|i: int| 0 <= i < report.len() && (#[trigger] report[i]).func@ == x;
            let j = choose|j: int|
                0 <= j < totals.len() && #[trigger] row(totals[j]) == row(report[i]);
            assert(totals[j].func@ == x);
            assert(listed(totals, x));
        }
        if closed_calls(h, x, n) > 0 {
            assert(listed(totals, x));
            let j = choose|j: int| 0 <= j < totals.len() && (#[trigger] totals[j]).func@ == x;
            assert(a[j] == row(totals[j]));
            assert(a.to_multiset().count(a[j]) > 0);
            assert(b.contains(a[j]));
            let i = choose|i: int| 0 <= i < b.len() && b[i] == a[j];
            assert(report[i].func@ == x);
        }
    }
}

/// The time a call took is what the clock advanced, and nothing where it went back.
pub proof fn law_time_does_not_run_backwards(start: int, now: int)
    ensures
        now >= start ==> start + elapsed(start, now) == now,
        now < start ==> elapsed(start, now) == 0,
{
}

/// What is told of rows and of calls in progress is everything they hold, in their order.
pub proof fn law_rows_are_told_whole(s: Seq<ProfRow>, c: Seq<(String, u128)>, i: int)
    requires
        i >= 0,
    ensures
        rows(s).len() == s.len(),
        i < s.len() ==> rows(s)[i].0 == s[i].func@ && rows(s)[i].1 == s[i].calls && rows(s)[i].2
            == s[i].nanos,
        open_stack(c).len() == c.len(),
        i < c.len() ==> open_stack(c)[i].0 == c[i].0@ && open_stack(c)[i].1 == c[i].1,
{
}

/// Rows by time stand longest first.
pub proof fn law_the_longest_comes_first(s: Seq<ProfRow>, i: int, j: int)
    requires
        by_time(s),
        0 <= i < j < s.len(),
    ensures
        s[i].nanos >= s[j].nanos,
{
}

/// Calls nest: a call that is entered and left again leaves the calls around it open, is
/// counted for its own function alone, and took what passed in between.
pub proof fn law_calls_nest(h: Seq<(Option<Seq<char>>, u128)>, n: int, name: Seq<char>)
    requires
        0 <= n,
        n + 1 < h.len(),
        h[n].0 == Some(name),
        h[n + 1].0 is None,
    ensures
        open_calls(h, n + 2) == open_calls(h, n),
        closes(h, name, n + 1),
        forall|other: Seq<char>| other != name ==> !#[trigger] closes(h, other, n + 1),
        closed_calls(h, name, n + 2) == closed_calls(h, name, n) + 1,
        closed_time(h, name, n + 2) == closed_time(h, name, n) + elapsed(
            h[n].1 as int,
            h[n + 1].1 as int,
        ),
{
    let before = open_calls(h, n);
    let inner = open_calls(h, n + 1);
    assert(inner == before.push((name, h[n].1)));
    assert(inner.drop_last() =~= before);
    assert(!closes(h, name, n));
    assert(closed_calls(h, name, n + 1) == closed_calls(h, name, n));
    assert(closed_time(h, name, n + 1) == closed_time(h, name, n));
}

} // verus!
