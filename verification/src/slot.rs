//! A store whose keys carry a generation, so that a key to something removed is
//! refused for good instead of reading whatever took its place.
use vstd::prelude::*;

verus! {

/// The last generation a slot serves; after it the slot is retired.
pub const GEN_MAX: u32 = 0x7fff_ffff;

/// A slot and the generation it had when the key was issued.
#[derive(Clone, Copy, PartialEq, Eq, Structural, Debug)]
pub struct Key {
    pub slot: u32,
    pub gen: u32,
}

impl Key {
    /// A key that can have been issued.
    pub open spec fn valid(self) -> bool {
        1 <= self.gen <= GEN_MAX
    }

    /// The number a program holds for the key: generation above, slot below.
    pub open spec fn packed(self) -> int {
        self.gen * 0x1_0000_0000 + self.slot
    }

    /// The number a program holds; never zero and never negative.
    pub fn to_i64(self) -> (r: i64)
        requires
            self.valid(),
        ensures
            r == self.packed(),
            r > 0,
    {
        self.gen as i64 * 0x1_0000_0000 + self.slot as i64
    }

    /// The key a number stands for, if it can stand for one.
    pub fn from_i64(h: i64) -> (r: Option<Key>)
        ensures
            r is Some <==> h >= 0x1_0000_0000,
            r matches Some(k) ==> k.valid() && k.packed() == h,
    {
        if h < 0x1_0000_0000 {
            return None;
        }
        let k = Key { gen: (h / 0x1_0000_0000) as u32, slot: (h % 0x1_0000_0000) as u32 };
        assert(k.packed() == h);
        Some(k)
    }

    pub fn slot(self) -> (r: u32)
        ensures
            r == self.slot,
    {
        self.slot
    }
}

/// Two keys a program cannot tell apart are one key.
pub proof fn law_packing_is_one_to_one(a: Key, b: Key)
    requires
        a.packed() == b.packed(),
    ensures
        a == b,
{
}

struct Slot<T> {
    gen: u32,
    val: Option<T>,
}

pub struct SlotMap<T> {
    slots: Vec<Slot<T>>,
    free: Vec<u32>,
    live: usize,
}

/// How many of the first `n` slots hold something.
spec fn live_in<T>(slots: Seq<Slot<T>>, n: int) -> int
    decreases n,
{
    if n <= 0 {
        0
    } else {
        live_in(slots, n - 1) + (if slots[n - 1].val is Some {
            1int
        } else {
            0
        })
    }
}

proof fn lemma_live_bound<T>(slots: Seq<Slot<T>>, n: int)
    requires
        0 <= n,
    ensures
        0 <= live_in(slots, n) <= n,
        forall|i: int| 0 <= i < n && (#[trigger] slots[i]).val is Some ==> live_in(slots, n) > 0,
    decreases n,
{
    if n > 0 {
        lemma_live_bound(slots, n - 1);
    }
}

proof fn lemma_live_update<T>(a: Seq<Slot<T>>, b: Seq<Slot<T>>, i: int, n: int)
    requires
        0 <= i < n <= a.len(),
        a.len() <= b.len(),
        forall|j: int| 0 <= j < n && j != i ==> a[j] == b[j],
    ensures
        live_in(b, n) == live_in(a, n) + (if b[i].val is Some {
            1int
        } else {
            0
        }) - (if a[i].val is Some {
            1int
        } else {
            0
        }),
    decreases n,
{
    if i < n - 1 {
        lemma_live_update(a, b, i, n - 1);
    } else {
        lemma_live_same(a, b, n - 1);
    }
}

proof fn lemma_live_same<T>(a: Seq<Slot<T>>, b: Seq<Slot<T>>, n: int)
    requires
        forall|j: int| 0 <= j < n ==> a[j] == b[j],
    ensures
        live_in(b, n) == live_in(a, n),
    decreases n,
{
    if n > 0 {
        lemma_live_same(a, b, n - 1);
    }
}

impl<T> SlotMap<T> {
    pub closed spec fn wf(self) -> bool {
        &&& self.slots@.len() <= u32::MAX
        &&& forall|s: int|
            0 <= s < self.slots@.len() ==> 1 <= (#[trigger] self.slots@[s]).gen <= GEN_MAX + 1
        &&& forall|s: int|
            0 <= s < self.slots@.len() && (#[trigger] self.slots@[s]).val is Some
                ==> self.slots@[s].gen <= GEN_MAX
        &&& forall|i: int|
            0 <= i < self.free@.len() ==> (#[trigger] self.free@[i]) < self.slots@.len()
                && self.slots@[self.free@[i] as int].val is None
                && self.slots@[self.free@[i] as int].gen <= GEN_MAX
        &&& forall|i: int, j: int|
            0 <= i < j < self.free@.len() ==> self.free@[i] != self.free@[j]
        &&& forall|s: int|
            0 <= s < self.slots@.len() && (#[trigger] self.slots@[s]).val is None
                && self.slots@[s].gen <= GEN_MAX ==> self.free@.contains(s as u32)
        &&& self.live == live_in(self.slots@, self.slots@.len() as int)
    }

    spec fn at(self, k: Key) -> Option<T> {
        if k.slot < self.slots@.len() && self.slots@[k.slot as int].gen == k.gen {
            self.slots@[k.slot as int].val
        } else {
            None
        }
    }

    /// What each live key names.
    pub closed spec fn view(self) -> Map<Key, T> {
        Map::new(|k: Key| self.at(k) is Some, |k: Key| self.at(k)->0)
    }

    /// Whether a key was ever handed out.
    pub closed spec fn issued(self, k: Key) -> bool {
        &&& k.slot < self.slots@.len()
        &&& 1 <= k.gen
        &&& k.gen < self.slots@[k.slot as int].gen || (k.gen == self.slots@[k.slot as int].gen
            && self.slots@[k.slot as int].val is Some)
    }

    /// How many slots were ever allocated.
    pub closed spec fn slots_len(self) -> nat {
        self.slots@.len()
    }

    /// How many keys are live.
    pub closed spec fn live_len(self) -> nat {
        self.live as nat
    }

    /// No allocated slot can take anything: each is in use or retired.
    pub closed spec fn full(self) -> bool {
        forall|s: int|
            0 <= s < self.slots@.len() ==> (#[trigger] self.slots@[s]).val is Some
                || self.slots@[s].gen > GEN_MAX
    }

    /// Slot `s` has served its last generation.
    pub closed spec fn retired(self, s: int) -> bool {
        0 <= s < self.slots@.len() && self.slots@[s].gen > GEN_MAX
    }

    /// The key slot `s` answers to, where something is in it.
    pub closed spec fn key_of(self, s: int) -> Option<Key> {
        if 0 <= s < self.slots@.len() && self.slots@[s].val is Some {
            Some(Key { slot: s as u32, gen: self.slots@[s].gen })
        } else {
            None
        }
    }

    /// Whether another insert is within the machine's limits.
    pub open spec fn room(self) -> bool {
        !self.full() || self.slots_len() < u32::MAX
    }

    /// The same keys are live, were issued and can still be: only what they name may
    /// differ.
    pub open spec fn same_keys(self, other: SlotMap<T>) -> bool {
        &&& self@.dom() == other@.dom()
        &&& forall|k: Key| #[trigger] self.issued(k) <==> other.issued(k)
        &&& self.live_len() == other.live_len()
        &&& self.slots_len() == other.slots_len()
        &&& self.full() == other.full()
        &&& forall|s: int| #[trigger] self.retired(s) <==> other.retired(s)
        &&& forall|s: int| #[trigger] self.key_of(s) == other.key_of(s)
    }

    /// `self` came from `before` by storing and removing: no key is forgotten, and one
    /// that is live now was live then or is new.
    pub open spec fn comes_from(self, before: SlotMap<T>) -> bool {
        &&& forall|k: Key| before.issued(k) ==> #[trigger] self.issued(k)
        &&& forall|k: Key|
            #[trigger] self@.dom().contains(k) ==> before@.dom().contains(k) || !before.issued(k)
    }

    pub fn new() -> (m: SlotMap<T>)
        ensures
            m.wf(),
            m@ == Map::<Key, T>::empty(),
            m.slots_len() == 0,
            m.live_len() == 0,
            m.full(),
            forall|k: Key| !(#[trigger] m.issued(k)),
    {
        let m = SlotMap { slots: Vec::new(), free: Vec::new(), live: 0 };
        assert(m@ =~= Map::<Key, T>::empty());
        m
    }

    /// Store `v` under a key that was never handed out before. A free slot is
    /// reused, and only when there is none does the store grow.
    pub fn insert(&mut self, v: T) -> (k: Key)
        requires
            old(self).wf(),
            old(self).room(),
        ensures
            final(self).wf(),
            k.valid(),
            !old(self).issued(k),
            !old(self)@.dom().contains(k),
            final(self)@ == old(self)@.insert(k, v),
            forall|j: Key| #[trigger] final(self).issued(j) <==> old(self).issued(j) || j == k,
            final(self).live_len() == old(self).live_len() + 1,
            final(self).slots_len() == old(self).slots_len() + (if old(self).full() {
                1nat
            } else {
                0
            }),
            k.slot < final(self).slots_len(),
            old(self).full() ==> k == (Key { slot: old(self).slots_len() as u32, gen: 1 }),
            final(self).comes_from(*old(self)),
            forall|s: int| #[trigger] final(self).retired(s) <==> old(self).retired(s),
    {
        let ghost a = *self;
        proof {
            lemma_live_bound(self.slots@, self.slots@.len() as int);
        }
        match self.free.pop() {
            Some(s) => {
                let ghost popped = self.free@;
                assert(a.free@ == popped.push(s));
                assert(a.free@[a.free@.len() - 1] == s);
                let k = Key { slot: s, gen: self.slots[s as usize].gen };
                let gen: u32 = self.slots[s as usize].gen;
                self.slots[s as usize] = Slot { gen, val: Some(v) };
                proof {
                    lemma_live_update(a.slots@, self.slots@, s as int, a.slots@.len() as int);
                    lemma_live_bound(self.slots@, self.slots@.len() as int);
                }
                self.live = self.live + 1;
                proof {
                    assert forall|t: int|
                        0 <= t < self.slots@.len() && (#[trigger] self.slots@[t]).val is None
                            && self.slots@[t].gen <= GEN_MAX implies self.free@.contains(
                        t as u32,
                    ) by {
                        assert(a.slots@[t] == self.slots@[t]);
                        let i = choose|i: int| 0 <= i < a.free@.len() && a.free@[i] == t as u32;
                        assert(i != a.free@.len() - 1);
                        assert(self.free@[i] == t as u32);
                    }
                    assert(self@ =~= a@.insert(k, v));
                }
                k
            },
            None => {
                assert(self.full()) by {
                    assert forall|t: int| 0 <= t < self.slots@.len() implies (
                    #[trigger] self.slots@[t]).val is Some || self.slots@[t].gen > GEN_MAX by {
                        if self.slots@[t].val is None && self.slots@[t].gen <= GEN_MAX {
                            assert(a.free@.contains(t as u32));
                        }
                    }
                }
                let s: u32 = self.slots.len() as u32;
                self.slots.push(Slot { gen: 1, val: Some(v) });
                self.live = self.live + 1;
                let k = Key { slot: s, gen: 1 };
                proof {
                    lemma_live_same(a.slots@, self.slots@, a.slots@.len() as int);
                    assert(self@ =~= a@.insert(k, v));
                }
                k
            },
        }
    }

    /// What `k` names, or nothing where it is stale or was never issued.
    pub fn get(&self, k: Key) -> (r: Option<&T>)
        ensures
            r is Some <==> self@.dom().contains(k),
            r matches Some(v) ==> *v == self@[k],
    {
        if (k.slot as usize) < self.slots.len() && self.slots[k.slot as usize].gen == k.gen {
            match &self.slots[k.slot as usize].val {
                Some(v) => Some(v),
                None => None,
            }
        } else {
            None
        }
    }

    pub fn contains(&self, k: Key) -> (r: bool)
        ensures
            r == self@.dom().contains(k),
    {
        self.get(k).is_some()
    }

    /// Put `v` in place of what `k` names. Nothing happens where `k` names nothing.
    pub fn set(&mut self, k: Key, v: T) -> (r: bool)
        requires
            old(self).wf(),
        ensures
            final(self).wf(),
            r == old(self)@.dom().contains(k),
            final(self)@ == (if r {
                old(self)@.insert(k, v)
            } else {
                old(self)@
            }),
            final(self).same_keys(*old(self)),
            final(self).comes_from(*old(self)),
    {
        let ghost a = *self;
        if !self.contains(k) {
            return false;
        }
        let i: usize = k.slot as usize;
        let gen: u32 = self.slots[i].gen;
        self.slots[i] = Slot { gen, val: Some(v) };
        proof {
            lemma_live_update(a.slots@, self.slots@, i as int, a.slots@.len() as int);
            assert forall|t: int|
                0 <= t < self.slots@.len() && (#[trigger] self.slots@[t]).val is None
                    && self.slots@[t].gen <= GEN_MAX implies self.free@.contains(t as u32) by {
                assert(a.slots@[t] == self.slots@[t]);
            }
            assert(self@ =~= a@.insert(k, v));
            assert(self@.dom() =~= a@.dom());
            if self.full() {
                assert forall|t: int| 0 <= t < a.slots@.len() implies (#[trigger] a.slots@[t]).val is Some
                    || a.slots@[t].gen > GEN_MAX by {
                    assert(self.slots@[t].val is Some || self.slots@[t].gen > GEN_MAX);
                }
            }
        }
        true
    }

    /// Take out what `k` names. The key is refused from then on.
    pub fn remove(&mut self, k: Key) -> (r: Option<T>)
        requires
            old(self).wf(),
        ensures
            final(self).wf(),
            r is Some <==> old(self)@.dom().contains(k),
            r matches Some(v) ==> v == old(self)@[k],
            final(self)@ == old(self)@.remove(k),
            forall|j: Key| #[trigger] final(self).issued(j) <==> old(self).issued(j),
            final(self).live_len() == old(self).live_len() - (if r is Some {
                1int
            } else {
                0
            }),
            final(self).slots_len() == old(self).slots_len(),
            final(self).comes_from(*old(self)),
            r is None ==> *final(self) == *old(self),
            r is Some && k.gen < GEN_MAX ==> !final(self).full(),
            forall|s: int|
                #[trigger] final(self).retired(s) <==> old(self).retired(s) || (r is Some && s
                    == k.slot && k.gen == GEN_MAX),
    {
        let ghost a = *self;
        if !self.contains(k) {
            assert(self@ =~= a@.remove(k));
            return None;
        }
        let i: usize = k.slot as usize;
        let gen: u32 = self.slots[i].gen;
        proof {
            lemma_live_bound(self.slots@, self.slots@.len() as int);
        }
        let mut out: Slot<T> = Slot { gen: gen + 1, val: None };
        std::mem::swap(&mut self.slots[i], &mut out);
        self.live = self.live - 1;
        if gen + 1 <= GEN_MAX {
            self.free.push(k.slot);
        }
        proof {
            lemma_live_update(a.slots@, self.slots@, i as int, a.slots@.len() as int);
            assert forall|t: int|
                0 <= t < self.slots@.len() && (#[trigger] self.slots@[t]).val is None
                    && self.slots@[t].gen <= GEN_MAX implies self.free@.contains(t as u32) by {
                if t == i {
                    assert(self.free@[self.free@.len() - 1] == t as u32);
                } else {
                    assert(a.slots@[t] == self.slots@[t]);
                    let n = choose|n: int| 0 <= n < a.free@.len() && a.free@[n] == t as u32;
                    assert(self.free@[n] == t as u32);
                }
            }
            assert forall|n: int| 0 <= n < self.free@.len() implies (#[trigger] self.free@[n])
                < self.slots@.len() && self.slots@[self.free@[n] as int].val is None
                && self.slots@[self.free@[n] as int].gen <= GEN_MAX by {
                if n < a.free@.len() {
                    assert(self.free@[n] == a.free@[n]);
                }
            }
            assert(self@ =~= a@.remove(k));
            if gen < GEN_MAX {
                assert(self.slots@[i as int].val is None);
            }
        }
        out.val
    }

    /// Take everything out. Every key issued so far is refused from then on.
    pub fn clear(&mut self)
        requires
            old(self).wf(),
        ensures
            final(self).wf(),
            final(self)@ == Map::<Key, T>::empty(),
            forall|j: Key| #[trigger] final(self).issued(j) <==> old(self).issued(j),
            final(self).live_len() == 0,
            final(self).slots_len() == old(self).slots_len(),
            final(self).comes_from(*old(self)),
    {
        let ghost a = *self;
        let mut i: usize = 0;
        while i < self.slots.len()
            invariant
                i <= self.slots@.len(),
                self.wf(),
                self.slots@.len() == a.slots@.len(),
                forall|s: int| 0 <= s < i ==> (#[trigger] self.slots@[s]).val is None,
                forall|s: int| i <= s < a.slots@.len() ==> self.slots@[s] == a.slots@[s],
                forall|j: Key| #[trigger] self.issued(j) <==> a.issued(j),
            decreases self.slots@.len() - i,
        {
            let ghost b = *self;
            if self.slots[i].val.is_some() {
                let k = Key { slot: i as u32, gen: self.slots[i].gen };
                assert(self@.dom().contains(k));
                self.drop_slot(i);
            }
            i += 1;
        }
        proof {
            lemma_none_live(self.slots@, self.slots@.len() as int);
            assert(self@ =~= Map::<Key, T>::empty());
        }
    }

    /// Empty slot `i`, which is in use.
    fn drop_slot(&mut self, i: usize)
        requires
            old(self).wf(),
            i < old(self).slots@.len(),
            old(self).slots@[i as int].val is Some,
        ensures
            final(self).wf(),
            final(self).slots@.len() == old(self).slots@.len(),
            final(self).slots@[i as int].val is None,
            forall|s: int|
                0 <= s < final(self).slots@.len() && s != i ==> final(self).slots@[s] == old(
                    self,
                ).slots@[s],
            forall|j: Key| #[trigger] final(self).issued(j) <==> old(self).issued(j),
    {
        let ghost a = *self;
        let gen: u32 = self.slots[i].gen;
        proof {
            lemma_live_bound(self.slots@, self.slots@.len() as int);
        }
        self.slots[i] = Slot { gen: gen + 1, val: None };
        self.live = self.live - 1;
        if gen + 1 <= GEN_MAX {
            self.free.push(i as u32);
        }
        proof {
            lemma_live_update(a.slots@, self.slots@, i as int, a.slots@.len() as int);
            assert forall|t: int|
                0 <= t < self.slots@.len() && (#[trigger] self.slots@[t]).val is None
                    && self.slots@[t].gen <= GEN_MAX implies self.free@.contains(t as u32) by {
                if t == i {
                    assert(self.free@[self.free@.len() - 1] == t as u32);
                } else {
                    assert(a.slots@[t] == self.slots@[t]);
                    let n = choose|n: int| 0 <= n < a.free@.len() && a.free@[n] == t as u32;
                    assert(self.free@[n] == t as u32);
                }
            }
            assert forall|n: int| 0 <= n < self.free@.len() implies (#[trigger] self.free@[n])
                < self.slots@.len() && self.slots@[self.free@[n] as int].val is None
                && self.slots@[self.free@[n] as int].gen <= GEN_MAX by {
                if n < a.free@.len() {
                    assert(self.free@[n] == a.free@[n]);
                }
            }
        }
    }

    pub fn len(&self) -> (r: usize)
        ensures
            r == self.live_len(),
    {
        self.live
    }

    pub fn slot_count(&self) -> (r: usize)
        ensures
            r == self.slots_len(),
    {
        self.slots.len()
    }

    /// The key of slot `s`, where something is in it: for walking the store.
    pub fn key_at(&self, s: usize) -> (r: Option<Key>)
        requires
            self.wf(),
        ensures
            r == self.key_of(s as int),
            r matches Some(k) ==> self@.dom().contains(k) && k.slot == s && k.valid(),
    {
        if s < self.slots.len() && self.slots[s].val.is_some() {
            Some(Key { slot: s as u32, gen: self.slots[s].gen })
        } else {
            None
        }
    }

    /// A live key was issued, and its slot answers to it alone.
    pub proof fn lemma_live(self, k: Key)
        requires
            self.wf(),
            self@.dom().contains(k),
        ensures
            k.valid(),
            self.issued(k),
            k.slot < self.slots_len(),
            self.key_of(k.slot as int) == Some(k),
    {
    }
}

proof fn lemma_none_live<T>(slots: Seq<Slot<T>>, n: int)
    requires
        0 <= n <= slots.len(),
        forall|s: int| 0 <= s < n ==> (#[trigger] slots[s]).val is None,
    ensures
        live_in(slots, n) == 0,
    decreases n,
{
    if n > 0 {
        lemma_none_live(slots, n - 1);
    }
}

/// A key that was issued and no longer names anything never does again, whatever is
/// stored and removed afterwards.
pub proof fn law_dead_keys_stay_dead<T>(run: Seq<SlotMap<T>>, dead: Key, i: int, n: int)
    requires
        forall|m: int| 0 <= m < run.len() - 1 ==> run[m + 1].comes_from(#[trigger] run[m]),
        0 <= i <= n < run.len(),
        run[i].issued(dead),
        !run[i]@.dom().contains(dead),
    ensures
        run[n].issued(dead),
        !run[n]@.dom().contains(dead),
    decreases n,
{
    if i < n {
        law_dead_keys_stay_dead(run, dead, i, n - 1);
        assert(run[n - 1 + 1].comes_from(run[n - 1]));
    }
}

/// A packed key holds the slot below and the generation above.
pub proof fn law_keys_are_packed_in_halves(k: Key)
    ensures
        k.packed() / 0x1_0000_0000 == k.gen,
        k.packed() % 0x1_0000_0000 == k.slot,
        k.valid() <==> 0x1_0000_0000 <= k.packed() <= i64::MAX,
{
}

} // verus!
