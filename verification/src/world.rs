//! The entity-component world: entities, their components as raw bytes, and the
//! stack of running queries.
use vstd::prelude::*;

verus! {

/// One component of one entity.
pub struct Comp {
    pub ent: i64,
    pub tid: i64,
    pub data: Vec<u8>,
}

impl Comp {
    pub open spec fn key(self) -> (i64, i64) {
        (self.ent, self.tid)
    }
}

pub struct World {
    /// The id the next entity gets.
    pub next: i64,
    pub entities: Vec<i64>,
    /// No two of them belong to one entity under one type.
    pub comps: Vec<Comp>,
}

pub open spec fn distinct(cs: Seq<Comp>) -> bool {
    forall|i: int, j: int|
        #![trigger cs[i], cs[j]]
        0 <= i < j < cs.len() ==> cs[i].key() != cs[j].key()
}

/// The first index from `i` on that holds component `tid` of `ent`, or the length.
pub open spec fn find_comp(cs: Seq<Comp>, ent: i64, tid: i64, i: int) -> int
    decreases cs.len() - i,
{
    if i >= cs.len() || cs[i].key() == (ent, tid) {
        i
    } else {
        find_comp(cs, ent, tid, i + 1)
    }
}

pub open spec fn comp_at(cs: Seq<Comp>, k: (i64, i64)) -> Option<Seq<u8>> {
    let i = find_comp(cs, k.0, k.1, 0);
    if i < cs.len() {
        Some(cs[i].data@)
    } else {
        None
    }
}

/// The components as a map from entity and type to bytes.
pub open spec fn comp_map(cs: Seq<Comp>) -> Map<(i64, i64), Seq<u8>> {
    Map::new(|k: (i64, i64)| comp_at(cs, k) is Some, |k: (i64, i64)| comp_at(cs, k)->0)
}

pub proof fn lemma_find_comp(cs: Seq<Comp>, ent: i64, tid: i64, i: int)
    requires
        0 <= i <= cs.len(),
    ensures
        i <= find_comp(cs, ent, tid, i) <= cs.len(),
        find_comp(cs, ent, tid, i) < cs.len() ==> cs[find_comp(cs, ent, tid, i)].key() == (
            ent,
            tid,
        ),
        forall|j: int|
            i <= j < find_comp(cs, ent, tid, i) ==> (#[trigger] cs[j]).key() != (ent, tid),
    decreases cs.len() - i,
{
    if i < cs.len() && cs[i].key() != (ent, tid) {
        lemma_find_comp(cs, ent, tid, i + 1);
    }
}

/// Where the components are distinct, one of them is what its key maps to.
pub proof fn lemma_comp_map(cs: Seq<Comp>, k: (i64, i64))
    requires
        distinct(cs),
    ensures
        forall|i: int|
            0 <= i < cs.len() && (#[trigger] cs[i]).key() == k ==> comp_map(cs).dom().contains(k)
                && comp_map(cs)[k] == cs[i].data@,
        comp_map(cs).dom().contains(k) ==> exists|i: int|
            0 <= i < cs.len() && (#[trigger] cs[i]).key() == k && comp_map(cs)[k] == cs[i].data@,
{
    lemma_find_comp(cs, k.0, k.1, 0);
    let f = find_comp(cs, k.0, k.1, 0);
    assert forall|i: int| 0 <= i < cs.len() && (#[trigger] cs[i]).key() == k implies comp_map(
        cs,
    ).dom().contains(k) && comp_map(cs)[k] == cs[i].data@ by {
        assert(f <= i);
        if f < i {
            assert(cs[f].key() == k);
        }
    }
    if f < cs.len() {
        assert(cs[f].key() == k);
    }
}

/// Entity `e` has every component of `ids`.
pub open spec fn has_all(m: Map<(i64, i64), Seq<u8>>, e: i64, ids: Seq<i64>) -> bool {
    forall|t: int| 0 <= t < ids.len() ==> m.dom().contains((e, #[trigger] ids[t]))
}

/// The entities of the first `n` that have every component of `ids`, in order.
pub open spec fn matching(
    m: Map<(i64, i64), Seq<u8>>,
    entities: Seq<i64>,
    ids: Seq<i64>,
    n: int,
) -> Seq<i64>
    decreases n,
{
    if n <= 0 {
        Seq::empty()
    } else if has_all(m, entities[n - 1], ids) {
        matching(m, entities, ids, n - 1).push(entities[n - 1])
    } else {
        matching(m, entities, ids, n - 1)
    }
}

/// The entities of the first `n` other than `e`, in order.
pub open spec fn without(entities: Seq<i64>, e: i64, n: int) -> Seq<i64>
    decreases n,
{
    if n <= 0 {
        Seq::empty()
    } else if entities[n - 1] != e {
        without(entities, e, n - 1).push(entities[n - 1])
    } else {
        without(entities, e, n - 1)
    }
}

impl World {
    pub open spec fn wf(self) -> bool {
        distinct(self.comps@)
    }

    /// No entity stands twice, and every id is one that was handed out. A world
    /// that is only ever changed by the calls below stays so; one that a scene file
    /// describes holds what the file says.
    pub open spec fn orderly(self) -> bool {
        &&& forall|i: int, j: int|
            0 <= i < j < self.entities@.len() ==> #[trigger] self.entities@[i]
                != #[trigger] self.entities@[j]
        &&& forall|i: int| 0 <= i < self.entities@.len() ==> #[trigger] self.entities@[i] < self.next
    }

    /// The components as a map.
    pub open spec fn map(self) -> Map<(i64, i64), Seq<u8>> {
        comp_map(self.comps@)
    }

    pub fn new() -> (w: World)
        ensures
            w.wf(),
            w.orderly(),
            w.next == 0,
            w.entities@.len() == 0,
            w.map() == Map::<(i64, i64), Seq<u8>>::empty(),
    {
        let w = World { next: 0, entities: Vec::new(), comps: Vec::new() };
        assert(w.map() =~= Map::<(i64, i64), Seq<u8>>::empty());
        w
    }

    pub fn spawn_entity(&mut self) -> (e: i64)
        requires
            old(self).wf(),
            old(self).next < i64::MAX,
        ensures
            spawned(*old(self), e, *final(self)),
            final(self).comps == old(self).comps,
    {
        let e: i64 = self.next;
        self.next = self.next + 1;
        self.entities.push(e);
        e
    }

    /// Remove an entity and everything it carries.
    pub fn despawn(&mut self, e: i64)
        requires
            old(self).wf(),
        ensures
            despawned(*old(self), e, *final(self)),
    {
        let ghost ents = self.entities@;
        let ghost cs = self.comps@;
        let mut kept: Vec<i64> = Vec::new();
        let mut i: usize = 0;
        while i < self.entities.len()
            invariant
                i <= self.entities@.len(),
                self.entities@ == ents,
                self.comps@ == cs,
                self.next == old(self).next,
                kept@ == without(ents, e, i as int),
            decreases self.entities@.len() - i,
        {
            if self.entities[i] != e {
                kept.push(self.entities[i]);
            }
            i += 1;
        }
        self.entities = kept;
        let mut i: usize = 0;
        while i < self.comps.len()
            invariant
                self.entities@ == without(ents, e, ents.len() as int),
                self.next == old(self).next,
                i <= self.comps@.len(),
                distinct(self.comps@),
                distinct(cs),
                forall|j: int| 0 <= j < i ==> (#[trigger] self.comps@[j]).ent != e,
                forall|j: int|
                    0 <= j < self.comps@.len() ==> cs.contains(#[trigger] self.comps@[j]),
                forall|k: int|
                    0 <= k < cs.len() && (#[trigger] cs[k]).ent != e ==> self.comps@.contains(
                        cs[k],
                    ),
            decreases self.comps@.len() - i,
        {
            let ghost before = self.comps@;
            if self.comps[i].ent == e {
                self.comps.remove(i);
                proof {
                    assert forall|j: int| 0 <= j < self.comps@.len() implies cs.contains(
                        #[trigger] self.comps@[j],
                    ) by {
                        if j < i {
                            assert(self.comps@[j] == before[j]);
                        } else {
                            assert(self.comps@[j] == before[j + 1]);
                        }
                    }
                    assert forall|k: int|
                        0 <= k < cs.len() && (#[trigger] cs[k]).ent != e implies self.comps@.contains(
                        cs[k],
                    ) by {
                        let j = choose|j: int| 0 <= j < before.len() && before[j] == cs[k];
                        if j < i {
                            assert(self.comps@[j] == cs[k]);
                        } else {
                            assert(self.comps@[j - 1] == cs[k]);
                        }
                    }
                }
            } else {
                i += 1;
            }
        }
        proof {
            let want = old(self).map().remove_keys(keys_of(e));
            assert forall|k: (i64, i64)|
                #![trigger self.map().dom().contains(k)]
                #![trigger want.dom().contains(k)]
                #![trigger self.map()[k]]
                self.map().dom().contains(k) == want.dom().contains(k) && (want.dom().contains(k)
                    ==> self.map()[k] == want[k]) by {
                lemma_comp_map(cs, k);
                lemma_comp_map(self.comps@, k);
                if want.dom().contains(k) {
                    let a = choose|i: int|
                        0 <= i < cs.len() && (#[trigger] cs[i]).key() == k && comp_map(cs)[k]
                            == cs[i].data@;
                    let b = choose|j: int| 0 <= j < self.comps@.len() && self.comps@[j] == cs[a];
                    assert(self.comps@[b].key() == k);
                }
                if self.map().dom().contains(k) {
                    let b = choose|i: int|
                        0 <= i < self.comps@.len() && (#[trigger] self.comps@[i]).key() == k
                            && comp_map(self.comps@)[k] == self.comps@[i].data@;
                    let a = choose|a: int| 0 <= a < cs.len() && cs[a] == self.comps@[b];
                    assert(cs[a].key() == k);
                }
            }
            assert(self.map() =~= want);
        }
    }

    /// The index of a component, or the number of components.
    fn comp_index(&self, e: i64, tid: i64) -> (r: usize)
        ensures
            r == find_comp(self.comps@, e, tid, 0),
            r <= self.comps@.len(),
    {
        let mut i: usize = 0;
        while i < self.comps.len() && !(self.comps[i].ent == e && self.comps[i].tid == tid)
            invariant
                i <= self.comps@.len(),
                find_comp(self.comps@, e, tid, 0) == find_comp(self.comps@, e, tid, i as int),
            decreases self.comps@.len() - i,
        {
            i += 1;
        }
        i
    }

    /// Give entity `e` component `tid`, in place of the one it had.
    pub fn store_component(&mut self, e: i64, tid: i64, data: Vec<u8>)
        requires
            old(self).wf(),
        ensures
            stored(*old(self), e, tid, data@, *final(self)),
    {
        let ghost cs = self.comps@;
        let ghost bytes = data@;
        let i: usize = self.comp_index(e, tid);
        proof {
            lemma_find_comp(cs, e, tid, 0);
        }
        if i < self.comps.len() {
            self.comps[i] = Comp { ent: e, tid, data };
        } else {
            self.comps.push(Comp { ent: e, tid, data });
        }
        proof {
            assert forall|x: int, y: int|
                #![trigger self.comps@[x], self.comps@[y]]
                0 <= x < y < self.comps@.len() implies self.comps@[x].key()
                != self.comps@[y].key() by {
                if x < cs.len() && y < cs.len() {
                    assert(cs[x].key() != cs[y].key());
                    assert(x == i || self.comps@[x] == cs[x]);
                    assert(y == i || self.comps@[y] == cs[y]);
                }
            }
            let want = old(self).map().insert((e, tid), bytes);
            assert forall|k: (i64, i64)|
                #![trigger self.map().dom().contains(k)]
                #![trigger want.dom().contains(k)]
                #![trigger self.map()[k]]
                self.map().dom().contains(k) == want.dom().contains(k) && (want.dom().contains(k)
                    ==> self.map()[k] == want[k]) by {
                lemma_comp_map(cs, k);
                lemma_comp_map(self.comps@, k);
                if k == (e, tid) {
                    assert(self.comps@[i as int].key() == k);
                } else {
                    if want.dom().contains(k) {
                        let a = choose|a: int|
                            0 <= a < cs.len() && (#[trigger] cs[a]).key() == k && comp_map(cs)[k]
                                == cs[a].data@;
                        assert(self.comps@[a] == cs[a]);
                    }
                    if self.map().dom().contains(k) {
                        let b = choose|b: int|
                            0 <= b < self.comps@.len() && (#[trigger] self.comps@[b]).key() == k
                                && comp_map(self.comps@)[k] == self.comps@[b].data@;
                        assert(cs[b] == self.comps@[b]);
                    }
                }
            }
            assert(self.map() =~= want);
        }
    }

    /// Component `tid` of entity `e`.
    pub fn get_component(&self, e: i64, tid: i64) -> (r: Option<&Vec<u8>>)
        ensures
            r is Some <==> self.map().dom().contains((e, tid)),
            r matches Some(d) ==> d@ == self.map()[(e, tid)],
    {
        let i: usize = self.comp_index(e, tid);
        if i < self.comps.len() {
            Some(&self.comps[i].data)
        } else {
            None
        }
    }

    /// The entities that carry every component of `ids`, in spawn order.
    pub fn matches(&self, ids: &[i64]) -> (r: Vec<i64>)
        ensures
            r@ == matching(self.map(), self.entities@, ids@, self.entities@.len() as int),
    {
        let mut out: Vec<i64> = Vec::new();
        let mut i: usize = 0;
        while i < self.entities.len()
            invariant
                i <= self.entities@.len(),
                out@ == matching(self.map(), self.entities@, ids@, i as int),
            decreases self.entities@.len() - i,
        {
            let e: i64 = self.entities[i];
            let mut t: usize = 0;
            while t < ids.len() && self.get_component(e, ids[t]).is_some()
                invariant
                    t <= ids@.len(),
                    forall|k: int|
                        0 <= k < t ==> self.map().dom().contains((e, #[trigger] ids@[k])),
                decreases ids@.len() - t,
            {
                t += 1;
            }
            if t == ids.len() {
                out.push(e);
            } else {
                assert(!self.map().dom().contains((e, ids@[t as int])));
            }
            i += 1;
        }
        out
    }

    pub fn entity_count(&self) -> (r: usize)
        ensures
            r == self.entities@.len(),
    {
        self.entities.len()
    }

    /// Remove everything. Ids go on counting, so that one held from before names
    /// nothing.
    pub fn clear(&mut self)
        requires
            old(self).wf(),
        ensures
            cleared(*old(self), *final(self)),
    {
        self.entities.clear();
        self.comps.clear();
        assert(self.map() =~= Map::<(i64, i64), Seq<u8>>::empty());
    }
}

/// The match sets of the query loops that are running, innermost last.
pub struct Queries {
    pub stack: Vec<Vec<i64>>,
}

impl Queries {
    pub open spec fn view(self) -> Seq<Seq<i64>> {
        Seq::new(self.stack@.len(), |i: int| self.stack@[i]@)
    }

    pub fn new() -> (q: Queries)
        ensures
            q@ == Seq::<Seq<i64>>::empty(),
    {
        let q = Queries { stack: Vec::new() };
        assert(q@ =~= Seq::<Seq<i64>>::empty());
        q
    }

    /// Start a query loop over the entities of `w` that carry every component of
    /// `ids`. Returns how many there are.
    pub fn query_begin(&mut self, w: &World, ids: &[i64]) -> (r: usize)
        ensures
            final(self)@ == old(self)@.push(
                matching(w.map(), w.entities@, ids@, w.entities@.len() as int),
            ),
            r == final(self)@.last().len(),
    {
        let m = w.matches(ids);
        let r: usize = m.len();
        self.stack.push(m);
        assert(self@ =~= old(self)@.push(
            matching(w.map(), w.entities@, ids@, w.entities@.len() as int),
        ));
        r
    }

    /// Finish the innermost loop, so that the one around it reads its own matches.
    pub fn query_end(&mut self)
        requires
            old(self)@.len() > 0,
        ensures
            final(self)@ == old(self)@.drop_last(),
    {
        self.stack.pop();
        assert(self@ =~= old(self)@.drop_last());
    }

    /// The `i`-th match of the innermost loop, -1 past the end or with no loop.
    pub fn query_entity(&self, i: i64) -> (r: i64)
        ensures
            r == (if self@.len() == 0 {
                -1
            } else {
                let cur = self@.last();
                let at = if i < 0 {
                    0
                } else {
                    i as int
                };
                if at < cur.len() {
                    cur[at] as int
                } else {
                    -1
                }
            }),
    {
        let n: usize = self.stack.len();
        if n == 0 {
            return -1;
        }
        let cur = &self.stack[n - 1];
        let at: u64 = if i < 0 {
            0
        } else {
            i as u64
        };
        if at < cur.len() as u64 {
            cur[at as usize]
        } else {
            -1
        }
    }

    pub fn clear(&mut self)
        ensures
            final(self)@ == Seq::<Seq<i64>>::empty(),
    {
        self.stack.clear();
        assert(self@ =~= Seq::<Seq<i64>>::empty());
    }
}

/// A query nested in another leaves the outer one's matches as they were.
pub proof fn law_nested_queries_do_not_disturb(outer: Seq<Seq<i64>>, inner: Seq<i64>)
    requires
        outer.len() > 0,
    ensures
        outer.push(inner).drop_last() == outer,
        outer.push(inner).drop_last().last() == outer.last(),
{
    assert(outer.push(inner).drop_last() =~= outer);
}

/// An entity is in a query exactly when it is in the world and carries every
/// component asked for.
pub proof fn law_queries_are_exact(w: World, ids: Seq<i64>, e: i64, n: int)
    requires
        0 <= n <= w.entities@.len(),
    ensures
        matching(w.map(), w.entities@, ids, n).contains(e) <==> has_all(w.map(), e, ids)
            && w.entities@.take(n).contains(e),
    decreases n,
{
    let ents = w.entities@;
    if n > 0 {
        law_queries_are_exact(w, ids, e, n - 1);
        let prev = ents.take(n - 1);
        let rest = matching(w.map(), ents, ids, n - 1);
        let all = matching(w.map(), ents, ids, n);
        if ents.take(n).contains(e) {
            let i = choose|i: int| 0 <= i < n && ents.take(n)[i] == e;
            if i < n - 1 {
                assert(prev[i] == e);
            }
        }
        if prev.contains(e) {
            let i = choose|i: int| 0 <= i < prev.len() && prev[i] == e;
            assert(ents.take(n)[i] == e);
        }
        assert(ents.take(n)[n - 1] == ents[n - 1]);
        if rest.contains(e) {
            let i = choose|i: int| 0 <= i < rest.len() && rest[i] == e;
            assert(all[i] == e);
        }
        if has_all(w.map(), ents[n - 1], ids) {
            assert(all[all.len() - 1] == ents[n - 1]);
        }
        if all.contains(e) {
            let i = choose|i: int| 0 <= i < all.len() && all[i] == e;
            if i < rest.len() {
                assert(rest[i] == e);
            }
        }
    }
}

/// A despawned entity is in no query afterwards.
pub proof fn law_despawned_is_gone(entities: Seq<i64>, e: i64, n: int)
    requires
        0 <= n <= entities.len(),
    ensures
        !without(entities, e, n).contains(e),
        forall|x: i64|
            x != e ==> (#[trigger] without(entities, e, n).contains(x) <==> entities.take(n).contains(
                x,
            )),
    decreases n,
{
    if n > 0 {
        law_despawned_is_gone(entities, e, n - 1);
        let prev = entities.take(n - 1);
        let rest = without(entities, e, n - 1);
        let all = without(entities, e, n);
        assert forall|x: i64| x != e implies (#[trigger] all.contains(x) <==> entities.take(
            n,
        ).contains(x)) by {
            assert(rest.contains(x) <==> prev.contains(x));
            if entities.take(n).contains(x) {
                let i = choose|i: int| 0 <= i < n && entities.take(n)[i] == x;
                if i < n - 1 {
                    assert(prev[i] == x);
                } else {
                    assert(all[all.len() - 1] == x);
                }
            }
            if prev.contains(x) {
                let i = choose|i: int| 0 <= i < prev.len() && prev[i] == x;
                assert(entities.take(n)[i] == x);
            }
            if rest.contains(x) {
                let i = choose|i: int| 0 <= i < rest.len() && rest[i] == x;
                assert(all[i] == x);
            }
            if all.contains(x) {
                let i = choose|i: int| 0 <= i < all.len() && all[i] == x;
                if i < rest.len() {
                    assert(rest[i] == x);
                } else {
                    assert(entities.take(n)[n - 1] == x);
                }
            }
        }
        if all.contains(e) {
            let i = choose|i: int| 0 <= i < all.len() && all[i] == e;
            if i < rest.len() {
                assert(rest[i] == e);
            }
        }
    }
}

/// Everything entity `e` can carry.
pub open spec fn keys_of(e: i64) -> Set<(i64, i64)> {
    Set::new(|k: (i64, i64)| k.0 == e)
}

/// What spawning an entity does.
pub open spec fn spawned(before: World, e: i64, after: World) -> bool {
    &&& after.wf()
    &&& e == before.next
    &&& after.next == e + 1
    &&& after.entities@ == before.entities@.push(e)
    &&& after.map() == before.map()
}

/// What removing an entity does: it is no longer there, and nothing of it is.
pub open spec fn despawned(before: World, e: i64, after: World) -> bool {
    &&& after.wf()
    &&& after.next == before.next
    &&& after.entities@ == without(before.entities@, e, before.entities@.len() as int)
    &&& after.map() == before.map().remove_keys(keys_of(e))
}

/// What storing a component does.
pub open spec fn stored(before: World, e: i64, tid: i64, data: Seq<u8>, after: World) -> bool {
    &&& after.wf()
    &&& after.next == before.next
    &&& after.entities == before.entities
    &&& after.map() == before.map().insert((e, tid), data)
}

/// What clearing does: nothing is left, and ids go on counting.
pub open spec fn cleared(before: World, after: World) -> bool {
    &&& after.wf()
    &&& after.next == before.next
    &&& after.entities@.len() == 0
    &&& after.map() == Map::<(i64, i64), Seq<u8>>::empty()
}

/// One change to a world.
pub open spec fn changed(before: World, after: World) -> bool {
    ||| exists|e: i64| #[trigger] spawned(before, e, after)
    ||| exists|e: i64| #[trigger] despawned(before, e, after)
    ||| exists|e: i64, tid: i64, data: Seq<u8>| #[trigger] stored(before, e, tid, data, after)
    ||| cleared(before, after)
}

proof fn lemma_without_is_drawn_from(entities: Seq<i64>, e: i64, n: int)
    requires
        0 <= n <= entities.len(),
        forall|i: int, j: int|
            0 <= i < j < entities.len() ==> #[trigger] entities[i] != #[trigger] entities[j],
    ensures
        forall|i: int, j: int|
            0 <= i < j < without(entities, e, n).len() ==> #[trigger] without(entities, e, n)[i]
                != #[trigger] without(entities, e, n)[j],
        forall|i: int|
            0 <= i < without(entities, e, n).len() ==> exists|k: int|
                0 <= k < n && entities[k] == #[trigger] without(entities, e, n)[i],
    decreases n,
{
    if n > 0 {
        lemma_without_is_drawn_from(entities, e, n - 1);
        let rest = without(entities, e, n - 1);
        let all = without(entities, e, n);
        assert forall|i: int| 0 <= i < all.len() implies exists|k: int|
            0 <= k < n && entities[k] == #[trigger] all[i] by {
            if i < rest.len() {
                let k = choose|k: int| 0 <= k < n - 1 && entities[k] == rest[i];
                assert(entities[k] == all[i]);
            } else {
                assert(entities[n - 1] == all[i]);
            }
        }
        assert forall|i: int, j: int| 0 <= i < j < all.len() implies #[trigger] all[i]
            != #[trigger] all[j] by {
            assert(all[i] == rest[i]);
            if j < rest.len() {
                assert(all[j] == rest[j]);
            } else {
                let k = choose|k: int| 0 <= k < n - 1 && entities[k] == rest[i];
                assert(entities[k] != entities[n - 1]);
            }
        }
    }
}

/// Entities stay distinct, and ids never count back, through any number of changes.
pub proof fn law_entities_stay_distinct(run: Seq<World>, i: int, k: int)
    requires
        forall|m: int| 0 <= m < run.len() - 1 ==> changed(#[trigger] run[m], run[m + 1]),
        0 <= i <= k < run.len(),
        run[i].orderly(),
    ensures
        run[k].orderly(),
        run[i].next <= run[k].next,
    decreases k,
{
    if i < k {
        law_entities_stay_distinct(run, i, k - 1);
        let (a, b) = (run[k - 1], run[k - 1 + 1]);
        assert(changed(run[k - 1], run[k - 1 + 1]));
        if exists|e: i64| #[trigger] spawned(a, e, b) {
        } else if exists|e: i64| #[trigger] despawned(a, e, b) {
            let e = choose|e: i64| #[trigger] despawned(a, e, b);
            lemma_without_is_drawn_from(a.entities@, e, a.entities@.len() as int);
        }
    }
}

/// An id is handed out once, and ids count up: what a later call spawns has a greater
/// one, whatever was despawned or cleared in between, and it is not one that is still
/// there.
pub proof fn law_ids_are_never_reused(run: Seq<World>, i: int, k: int, e: i64, f: i64)
    requires
        forall|m: int| 0 <= m < run.len() - 1 ==> changed(#[trigger] run[m], run[m + 1]),
        0 <= i < k < run.len() - 1,
        run[0].orderly(),
        spawned(run[i], e, run[i + 1]),
        spawned(run[k], f, run[k + 1]),
    ensures
        e < f,
        !run[k].entities@.contains(f),
{
    law_entities_stay_distinct(run, 0, i);
    law_entities_stay_distinct(run, 0, i + 1);
    law_entities_stay_distinct(run, i + 1, k);
}

/// An id handed out before a clear names nothing after it, and is not handed out
/// again.
pub proof fn law_cleared_ids_name_nothing(a: World, b: World, e: i64, tid: i64)
    requires
        e < a.next,
        cleared(a, b),
    ensures
        !b.entities@.contains(e),
        !b.map().contains_key((e, tid)),
        e < b.next,
{
}

/// A component is found by its entity and its type, both of them, and nothing else is.
pub proof fn law_components_are_found_by_entity_and_type(cs: Seq<Comp>, i: int, k: (i64, i64))
    requires
        distinct(cs),
    ensures
        0 <= i < cs.len() ==> comp_at(cs, (cs[i].ent, cs[i].tid)) == Some(cs[i].data@),
        comp_at(cs, k) is Some <==> exists|j: int|
            0 <= j < cs.len() && (#[trigger] cs[j]).ent == k.0 && cs[j].tid == k.1,
{
    lemma_find_comp(cs, k.0, k.1, 0);
    let f = find_comp(cs, k.0, k.1, 0);
    if f < cs.len() {
        assert(cs[f].ent == k.0 && cs[f].tid == k.1);
    }
    if 0 <= i < cs.len() {
        lemma_find_comp(cs, cs[i].ent, cs[i].tid, 0);
        let g = find_comp(cs, cs[i].ent, cs[i].tid, 0);
        if g < i {
            assert(cs[g].key() != cs[i].key());
        }
    }
}

/// The entities of a query and those that are left after a removal stand in the order of
/// the world.
pub proof fn law_entities_keep_their_order(
    m: Map<(i64, i64), Seq<u8>>,
    entities: Seq<i64>,
    ids: Seq<i64>,
    e: i64,
    n: int,
)
    requires
        0 <= n < entities.len(),
    ensures
        has_all(m, entities[n], ids) ==> matching(m, entities, ids, n + 1) == matching(
            m,
            entities,
            ids,
            n,
        ) + seq![entities[n]],
        !has_all(m, entities[n], ids) ==> matching(m, entities, ids, n + 1) == matching(
            m,
            entities,
            ids,
            n,
        ),
        entities[n] != e ==> without(entities, e, n + 1) == without(entities, e, n) + seq![
            entities[n],
        ],
        entities[n] == e ==> without(entities, e, n + 1) == without(entities, e, n),
{
}

/// A query for nothing in particular finds everyone, and asking for more finds fewer.
pub proof fn law_asking_for_more_finds_fewer(
    m: Map<(i64, i64), Seq<u8>>,
    e: i64,
    ids: Seq<i64>,
    tid: i64,
)
    ensures
        has_all(m, e, Seq::empty()),
        has_all(m, e, ids.push(tid)) <==> has_all(m, e, ids) && m.dom().contains((e, tid)),
{
    let more = ids.push(tid);
    if has_all(m, e, more) {
        assert forall|t: int| 0 <= t < ids.len() implies m.dom().contains(
            (e, #[trigger] ids[t]),
        ) by {
            assert(more[t] == ids[t]);
        }
        assert(more[ids.len() as int] == tid);
    }
}

/// What is stored is read back, and the components of others, and the other components of
/// the same entity, stay.
pub proof fn law_stored_components_are_read_back(
    a: World,
    e: i64,
    tid: i64,
    data: Seq<u8>,
    b: World,
    k: (i64, i64),
)
    requires
        stored(a, e, tid, data, b),
    ensures
        b.map().dom().contains((e, tid)),
        b.map()[(e, tid)] == data,
        k != (e, tid) ==> (b.map().dom().contains(k) <==> a.map().dom().contains(k)),
        k != (e, tid) && a.map().dom().contains(k) ==> b.map()[k] == a.map()[k],
        b.entities@ == a.entities@,
{
}

/// Removing an entity takes every component of it and none of any other.
pub proof fn law_removal_takes_the_components_along(a: World, e: i64, b: World, k: (i64, i64))
    requires
        despawned(a, e, b),
    ensures
        k.0 == e ==> !b.map().dom().contains(k),
        k.0 != e ==> (b.map().dom().contains(k) <==> a.map().dom().contains(k)),
        k.0 != e && a.map().dom().contains(k) ==> b.map()[k] == a.map()[k],
{
}

/// A component belongs to the entity and the type of its key.
pub proof fn law_keys_are_entity_and_type(c: Comp, e: i64, k: (i64, i64))
    ensures
        c.key().0 == c.ent,
        c.key().1 == c.tid,
        keys_of(e).contains(k) <==> k.0 == e,
{
}

} // verus!
