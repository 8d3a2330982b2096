//! The native debugger's state: breakpoints, call frames with their locals, and
//! the pauses recorded so far.
use std::collections::HashSet;
use vstd::prelude::*;

verus! {

broadcast use vstd::std_specs::hash::group_hash_axioms;

/// A local's value as the debugger shows it. Only scalar leaves appear.
#[derive(Clone, Copy, PartialEq, Eq, Structural, Debug)]
pub enum DbgVal {
    Int(i64),
    /// A float, by its bits.
    Float(u64),
}

/// A recorded pause: the line, the innermost frame's locals, and the call stack
/// from the outermost function in.
#[derive(Clone, Debug)]
pub struct Stop {
    pub line: u32,
    pub vars: Vec<(String, DbgVal)>,
    pub stack: Vec<String>,
}

/// What the front-end wants after a pause.
#[derive(Clone, Copy, PartialEq, Eq, Structural, Debug)]
pub enum DbgCmd {
    Continue,
    Step,
    Quit,
}

/// One call frame: the function and its scalar locals.
pub struct Frame {
    pub func: String,
    pub vars: Vec<(String, DbgVal)>,
}

pub struct DebugState {
    pub breakpoints: HashSet<u32>,
    pub step: bool,
    pub frames: Vec<Frame>,
    pub stops: Vec<Stop>,
}

/// Locals by name.
pub open spec fn locals(v: Seq<(String, DbgVal)>) -> Seq<(Seq<char>, DbgVal)> {
    Seq::new(v.len(), |i: int| (v[i].0@, v[i].1))
}

/// The names of the functions in progress.
pub open spec fn callers(f: Seq<Frame>) -> Seq<Seq<char>> {
    Seq::new(f.len(), |i: int| f[i].func@)
}

pub open spec fn names(v: Seq<String>) -> Seq<Seq<char>> {
    Seq::new(v.len(), |i: int| v[i]@)
}

/// Whether `name` is among the locals, and where it first is.
pub open spec fn has_local(v: Seq<(Seq<char>, DbgVal)>, name: Seq<char>) -> bool {
    exists|i: int| first_local(v, name, i)
}

pub open spec fn first_local(v: Seq<(Seq<char>, DbgVal)>, name: Seq<char>, i: int) -> bool {
    &&& 0 <= i < v.len()
    &&& v[i].0 == name
    &&& forall|k: int| 0 <= k < i ==> (#[trigger] v[k]).0 != name
}

/// The locals after `name` was given `value`: the one of that name changed in
/// place, or a new one at the end.
pub open spec fn bound(
    v: Seq<(Seq<char>, DbgVal)>,
    name: Seq<char>,
    value: DbgVal,
) -> Seq<(Seq<char>, DbgVal)> {
    if has_local(v, name) {
        v.update(choose|i: int| first_local(v, name, i), (name, value))
    } else {
        v.push((name, value))
    }
}

/// A line as the debugger counts it.
pub open spec fn line_of(line: i64) -> u32 {
    (if line < 0 {
        0
    } else {
        line
    }) as u32
}

impl DebugState {
    /// Whether a statement on `line` pauses.
    pub open spec fn pauses(self, line: u32) -> bool {
        self.step || self.breakpoints@.contains(line)
    }

    /// The innermost frame's locals.
    pub open spec fn inner(self) -> Seq<(Seq<char>, DbgVal)> {
        if self.frames@.len() == 0 {
            Seq::empty()
        } else {
            locals(self.frames@.last().vars@)
        }
    }

    /// What a pause on `line` shows.
    pub open spec fn shows(self, line: u32, s: Stop) -> bool {
        &&& s.line == line
        &&& locals(s.vars@) == self.inner()
        &&& names(s.stack@) == callers(self.frames@)
    }

    pub fn new() -> (d: DebugState)
        ensures
            d.breakpoints@ == Set::<u32>::empty(),
            !d.step,
            d.frames@.len() == 0,
            d.stops@.len() == 0,
    {
        DebugState {
            breakpoints: HashSet::new(),
            step: false,
            frames: Vec::new(),
            stops: Vec::new(),
        }
    }

    /// A function is entered.
    pub fn dbg_enter(&mut self, func: String)
        ensures
            *final(self) == (DebugState { frames: final(self).frames, ..*old(self) }),
            final(self).frames@.len() == old(self).frames@.len() + 1,
            final(self).frames@.drop_last() == old(self).frames@,
            final(self).frames@.last().func == func,
            final(self).frames@.last().vars@.len() == 0,
    {
        self.frames.push(Frame { func, vars: Vec::new() });
        assert(self.frames@.drop_last() =~= old(self).frames@);
    }

    /// The innermost function returns. With none in progress nothing happens.
    pub fn dbg_leave(&mut self)
        ensures
            *final(self) == (DebugState { frames: final(self).frames, ..*old(self) }),
            final(self).frames@ == (if old(self).frames@.len() == 0 {
                old(self).frames@
            } else {
                old(self).frames@.drop_last()
            }),
    {
        let gone = self.frames.pop();
    }

    fn snapshot(&self, line: u32) -> (s: Stop)
        ensures
            self.shows(line, s),
    {
        let mut vars: Vec<(String, DbgVal)> = Vec::new();
        let n: usize = self.frames.len();
        if n > 0 {
            let mut i: usize = 0;
            while i < self.frames[n - 1].vars.len()
                invariant
                    n == self.frames@.len(),
                    n > 0,
                    i <= self.frames@[n - 1].vars@.len(),
                    vars@.len() == i,
                    forall|k: int|
                        0 <= k < i ==> (#[trigger] vars@[k]).0@ == self.frames@[n - 1].vars@[k].0@
                            && vars@[k].1 == self.frames@[n - 1].vars@[k].1,
                decreases self.frames@[n - 1].vars@.len() - i,
            {
                let p = &self.frames[n - 1].vars[i];
                vars.push((p.0.clone(), p.1));
                i += 1;
            }
        }
        assert(locals(vars@) =~= self.inner());
        let mut stack: Vec<String> = Vec::new();
        let mut i: usize = 0;
        while i < n
            invariant
                n == self.frames@.len(),
                i <= n,
                stack@.len() == i,
                forall|k: int| 0 <= k < i ==> (#[trigger] stack@[k])@ == self.frames@[k].func@,
            decreases n - i,
        {
            stack.push(self.frames[i].func.clone());
            i += 1;
        }
        assert(names(stack@) =~= callers(self.frames@));
        Stop { line, vars, stack }
    }

    /// A statement is about to run. Where it pauses, the pause is recorded and
    /// handed back for the front-end.
    pub fn dbg_stmt(&mut self, line: i64) -> (r: Option<Stop>)
        ensures
            !old(self).pauses(line_of(line)) ==> r is None && *final(self) == *old(self),
            old(self).pauses(line_of(line)) ==> {
                &&& r is Some
                &&& old(self).shows(line_of(line), r->0)
                &&& *final(self) == (DebugState { stops: final(self).stops, ..*old(self) })
                &&& final(self).stops@.len() == old(self).stops@.len() + 1
                &&& final(self).stops@.drop_last() == old(self).stops@
                &&& old(self).shows(line_of(line), final(self).stops@.last())
            },
    {
        let line: u32 = if line < 0 {
            0
        } else {
            #[verifier::truncate]
            (line as u32)
        };
        if !self.step && !self.breakpoints.contains(&line) {
            return None;
        }
        let stop = self.snapshot(line);
        let kept = self.snapshot(line);
        self.stops.push(kept);
        assert(self.stops@.drop_last() =~= old(self).stops@);
        Some(stop)
    }

    /// The front-end's answer to a pause. Returns whether the program ends.
    pub fn resume(&mut self, cmd: DbgCmd) -> (quit: bool)
        ensures
            quit == (cmd == DbgCmd::Quit),
            *final(self) == (DebugState {
                step: (match cmd {
                    DbgCmd::Step => true,
                    DbgCmd::Continue => false,
                    DbgCmd::Quit => old(self).step,
                }),
                ..*old(self)
            }),
    {
        match cmd {
            DbgCmd::Step => {
                self.step = true;
                false
            },
            DbgCmd::Continue => {
                self.step = false;
                false
            },
            DbgCmd::Quit => true,
        }
    }

    /// A local of the innermost frame takes a value. Other frames keep theirs.
    pub fn dbg_var(&mut self, name: String, value: DbgVal)
        ensures
            *final(self) == (DebugState { frames: final(self).frames, ..*old(self) }),
            final(self).frames@.len() == old(self).frames@.len(),
            forall|i: int|
                0 <= i < old(self).frames@.len() - 1 ==> final(self).frames@[i] == old(self).frames@[i],
            callers(final(self).frames@) == callers(old(self).frames@),
            old(self).frames@.len() > 0 ==> final(self).inner() == bound(
                old(self).inner(),
                name@,
                value,
            ),
    {
        let ghost a = *self;
        let n: usize = self.frames.len();
        if n == 0 {
            assert(callers(self.frames@) =~= callers(a.frames@));
            return;
        }
        let mut i: usize = 0;
        while i < self.frames[n - 1].vars.len()
            invariant
                n == self.frames@.len(),
                n > 0,
                *self == a,
                a == *old(self),
                i <= a.frames@[n - 1].vars@.len(),
                forall|k: int| 0 <= k < i ==> (#[trigger] a.inner()[k]).0 != name@,
            decreases a.frames@[n - 1].vars@.len() - i,
        {
            if self.frames[n - 1].vars[i].0 == name {
                self.frames[n - 1].vars[i].1 = value;
                proof {
                    assert(first_local(a.inner(), name@, i as int));
                    let j = choose|j: int| first_local(a.inner(), name@, j);
                    assert(i == j) by {
                        if i < j {
                            assert(a.inner()[i as int].0 != name@);
                        } else if j < i {
                            assert(a.inner()[j].0 != name@);
                        }
                    }
                    assert(self.inner() =~= bound(a.inner(), name@, value));
                    assert(callers(self.frames@) =~= callers(a.frames@));
                }
                return;
            }
            i += 1;
        }
        self.frames[n - 1].vars.push((name, value));
        proof {
            assert(!has_local(a.inner(), name@)) by {
                if has_local(a.inner(), name@) {
                    let j = choose|j: int| first_local(a.inner(), name@, j);
                    assert(a.inner()[j].0 != name@);
                }
            }
            assert(self.inner() =~= bound(a.inner(), name@, value));
            assert(callers(self.frames@) =~= callers(a.frames@));
        }
    }
}

/// Set the debugger up for a run: which lines break, and whether every statement
/// does. What an earlier run left is forgotten.
pub fn dbg_reset(d: &mut DebugState, breakpoints: HashSet<u32>, step: bool)
    ensures
        final(d).breakpoints == breakpoints,
        final(d).step == step,
        final(d).frames@.len() == 0,
        final(d).stops@.len() == 0,
{
    d.breakpoints = breakpoints;
    d.step = step;
    d.frames.clear();
    d.stops.clear();
}

/// The pauses recorded so far, which are then forgotten.
pub fn dbg_take_stops(d: &mut DebugState) -> (r: Vec<Stop>)
    ensures
        r == old(d).stops,
        *final(d) == (DebugState { stops: final(d).stops, ..*old(d) }),
        final(d).stops@.len() == 0,
{
    let mut out: Vec<Stop> = Vec::new();
    std::mem::swap(&mut out, &mut d.stops);
    out
}

/// A name bound twice is one local, with the later value.
pub proof fn law_rebinding_replaces(
    v: Seq<(Seq<char>, DbgVal)>,
    name: Seq<char>,
    first: DbgVal,
    second: DbgVal,
)
    ensures
        bound(bound(v, name, first), name, second) == bound(v, name, second),
{
    let w = bound(v, name, first);
    if has_local(v, name) {
        let i = choose|i: int| first_local(v, name, i);
        assert(first_local(w, name, i));
        let j = choose|j: int| first_local(w, name, j);
        assert(i == j) by {
            if i < j {
                assert(w[i].0 != name);
            } else if j < i {
                assert(w[j].0 != name);
            }
        }
        assert(w.update(j, (name, second)) =~= v.update(i, (name, second)));
    } else {
        let i = v.len() as int;
        assert forall|k: int| 0 <= k < i implies (#[trigger] w[k]).0 != name by {
            if v[k].0 == name {
                lemma_first(v, name, k);
            }
        }
        assert(first_local(w, name, i));
        let j = choose|j: int| first_local(w, name, j);
        assert(i == j) by {
            if j < i {
                assert(w[j].0 != name);
            }
        }
        assert(w.update(j, (name, second)) =~= v.push((name, second)));
    }
}

proof fn lemma_first(v: Seq<(Seq<char>, DbgVal)>, name: Seq<char>, k: int)
    requires
        0 <= k < v.len(),
        v[k].0 == name,
    ensures
        has_local(v, name),
    decreases k,
{
    if forall|m: int| 0 <= m < k ==> (#[trigger] v[m]).0 != name {
        assert(first_local(v, name, k));
    } else {
        let m = choose|m: int| 0 <= m < k && (#[trigger] v[m]).0 == name;
        lemma_first(v, name, m);
    }
}

/// A name that is bound reads as its value; every other name keeps its own, and no local
/// changes its place.
pub proof fn law_bindings_are_found(
    v: Seq<(Seq<char>, DbgVal)>,
    name: Seq<char>,
    value: DbgVal,
    k: int,
)
    ensures
        has_local(bound(v, name, value), name),
        forall|i: int| #[trigger]
            first_local(bound(v, name, value), name, i) ==> bound(v, name, value)[i].1 == value,
        0 <= k < v.len() ==> bound(v, name, value)[k].0 == v[k].0,
        0 <= k < v.len() && v[k].0 != name ==> bound(v, name, value)[k] == v[k],
        bound(v, name, value).len() == v.len() + (if has_local(v, name) {
            0int
        } else {
            1
        }),
{
    let w = bound(v, name, value);
    if has_local(v, name) {
        let i = choose|i: int| first_local(v, name, i);
        assert(first_local(w, name, i));
        assert forall|j: int| #[trigger] first_local(w, name, j) implies w[j].1 == value by {
            if i < j {
                assert(w[i].0 != name);
            } else if j < i {
                assert(w[j].0 != name);
            }
        }
    } else {
        let i = v.len() as int;
        assert forall|m: int| 0 <= m < i implies (#[trigger] w[m]).0 != name by {
            if v[m].0 == name {
                lemma_first(v, name, m);
            }
        }
        assert(first_local(w, name, i));
        assert forall|j: int| #[trigger] first_local(w, name, j) implies w[j].1 == value by {
            if j < i {
                assert(w[j].0 != name);
            }
        }
    }
}

/// A statement pauses while stepping and on the lines with a breakpoint, and nowhere
/// else; a pause shows the line, the innermost locals and everyone in progress.
pub proof fn law_pauses_show_where_the_program_is(d: DebugState, line: u32, s: Stop)
    ensures
        d.step ==> d.pauses(line),
        d.breakpoints@.contains(line) ==> d.pauses(line),
        !d.step && !d.breakpoints@.contains(line) ==> !d.pauses(line),
        d.shows(line, s) && d.frames@.len() > 0 ==> {
            &&& s.line == line
            &&& s.stack@.len() == d.frames@.len()
            &&& s.stack@.last()@ == d.frames@.last().func@
            &&& s.vars@.len() == d.frames@.last().vars@.len()
        },
{
    if d.shows(line, s) && d.frames@.len() > 0 {
        let n = d.frames@.len() - 1;
        assert(names(s.stack@).len() == callers(d.frames@).len());
        assert(names(s.stack@)[n] == callers(d.frames@)[n]);
        assert(locals(s.vars@).len() == d.inner().len());
    }
}

/// A line is the number given where it is one, and 0 where it is negative.
pub proof fn law_lines_are_not_negative(line: i64)
    ensures
        line < 0 ==> line_of(line) == 0,
        0 <= line <= u32::MAX ==> line_of(line) == line,
{
}

/// What is told of locals and of calls is everything they hold, in their order.
pub proof fn law_locals_are_told_whole(
    v: Seq<(String, DbgVal)>,
    f: Seq<Frame>,
    w: Seq<String>,
    i: int,
)
    requires
        i >= 0,
    ensures
        locals(v).len() == v.len(),
        i < v.len() ==> locals(v)[i].0 == v[i].0@ && locals(v)[i].1 == v[i].1,
        callers(f).len() == f.len(),
        i < f.len() ==> callers(f)[i] == f[i].func@,
        names(w).len() == w.len(),
        i < w.len() ==> names(w)[i] == w[i]@,
{
}

} // verus!
