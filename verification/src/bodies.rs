//! The bodies of a physics world as a program holds them: generation-tagged
//! handles, collision groups, and which of two overlapping characters gives way.
//!
//! The solver lives elsewhere; a body here is the pair of solver handles it
//! stands for and what the rules need to know of it.
use vstd::prelude::*;
use std::collections::HashSet;
use crate::slot::{Key, SlotMap};

verus! {

/// Level geometry.
pub const GROUP_WORLD: u32 = 1;

/// Characters that stop others.
pub const GROUP_CHARACTER: u32 = 2;

/// Characters that others walk through.
pub const GROUP_GHOST: u32 = 4;

/// A body that was given no group is in all of them.
pub const GROUP_ALL: u32 = 0xffff_ffff;

/// What one handle owns.
#[derive(Clone, Copy)]
pub struct Body3 {
    /// The solver's rigid body.
    pub body: (u32, u32),
    /// The one collider attached to it.
    pub collider: (u32, u32),
    /// Whether the last character move ended on the ground.
    pub grounded: bool,
    /// Whether this character is stopped by other characters.
    pub solid: bool,
    /// The groups the collider is in.
    pub members: u32,
    /// A character's half height and radius, as float bits.
    pub capsule: Option<(u32, u32)>,
}

impl Body3 {
    /// Whether others are stopped by this one.
    pub open spec fn blocks(self) -> bool {
        self.members & GROUP_CHARACTER != 0
    }
}

/// The key a handle stands for.
pub open spec fn key(h: i64) -> Key {
    Key { slot: (h % 0x1_0000_0000) as u32, gen: (h / 0x1_0000_0000) as u32 }
}

/// What a handle turned out to be.
pub enum Lookup {
    Live(Body3),
    /// Removed by the program, never issued, or "no body".
    Gone,
    /// Issued by a world that was thrown away since: a bug in the program.
    Outlived,
}

pub struct Bodies {
    pub registry: SlotMap<Body3>,
    /// Handles the program removed since the world was made.
    pub removed: HashSet<i64>,
    pub hit_body: i64,
    /// Colliders changed since the query structure was last rebuilt.
    pub query_dirty: bool,
}

impl Bodies {
    pub open spec fn wf(self) -> bool {
        &&& self.registry.wf()
        &&& forall|h: i64| #[trigger]
            self.removed@.contains(h) ==> h >= 0x1_0000_0000 && self.registry.issued(key(h))
                && !self.registry@.dom().contains(key(h))
    }

    /// The body `h` names.
    pub open spec fn named(self, h: i64) -> Option<Body3> {
        if h >= 0x1_0000_0000 && self.registry@.dom().contains(key(h)) {
            Some(self.registry@[key(h)])
        } else {
            None
        }
    }

    /// `h` parses, names nothing, and was not removed in this world.
    pub open spec fn outlived(self, h: i64) -> bool {
        h >= 0x1_0000_0000 && self.named(h) is None && !self.removed@.contains(h)
    }

    /// A world with no bodies. Handles of the world before it, `prev`, are refused
    /// from now on rather than handed out again.
    pub fn init(prev: Option<Bodies>) -> (b: Bodies)
        requires
            prev matches Some(p) ==> p.wf(),
        ensures
            b.wf(),
            b.registry@ == Map::<Key, Body3>::empty(),
            b.removed@ == Set::<i64>::empty(),
            b.hit_body == -1,
            !b.query_dirty,
            b.registry.live_len() == 0,
            prev is None ==> b.registry.slots_len() == 0 && forall|k: Key|
                !(#[trigger] b.registry.issued(k)),
            prev matches Some(p) ==> remade(p, b),
    {
        let mut registry = match prev {
            Some(p) => p.registry,
            None => SlotMap::new(),
        };
        registry.clear();
        Bodies { registry, removed: HashSet::new(), hit_body: -1, query_dirty: false }
    }

    /// Register a body and return its handle.
    pub fn push_body(
        &mut self,
        body: (u32, u32),
        collider: (u32, u32),
        members: u32,
        capsule: Option<(u32, u32)>,
    ) -> (h: i64)
        requires
            old(self).wf(),
            old(self).registry.room(),
        ensures
            final(self).wf(),
            h >= 0x1_0000_0000,
            !old(self).registry.issued(key(h)),
            old(self).named(h) is None,
            final(self).registry@ == old(self).registry@.insert(
                key(h),
                (Body3 { body, collider, grounded: false, solid: false, members, capsule }),
            ),
            forall|k: Key|
                #[trigger] final(self).registry.issued(k) <==> old(self).registry.issued(k) || k
                    == key(h),
            final(self).removed == old(self).removed,
            final(self).hit_body == old(self).hit_body,
            final(self).query_dirty,
            follows(*old(self), *final(self)),
            final(self).registry.live_len() == old(self).registry.live_len() + 1,
            final(self).registry.slots_len() == old(self).registry.slots_len() + (if old(
                self,
            ).registry.full() {
                1nat
            } else {
                0
            }),
    {
        let k = self.registry.insert(
            Body3 { body, collider, grounded: false, solid: false, members, capsule },
        );
        let h: i64 = k.to_i64();
        assert(key(h) == k);
        assert forall|r: i64| #[trigger] self.removed@.contains(r) implies r >= 0x1_0000_0000
            && self.registry.issued(key(r)) && !self.registry@.dom().contains(key(r)) by {
            assert(old(self).registry.issued(key(r)));
        }
        self.query_dirty = true;
        h
    }

    /// Look a handle up.
    pub fn body_of(&self, h: i64) -> (r: Lookup)
        ensures
            match self.named(h) {
                Some(b) => r == Lookup::Live(b),
                None => if self.outlived(h) {
                    r is Outlived
                } else {
                    r is Gone
                },
            },
    {
        match Key::from_i64(h) {
            None => Lookup::Gone,
            Some(k) => {
                assert(k == key(h));
                match self.registry.get(k) {
                    Some(b) => Lookup::Live(*b),
                    None => if self.removed.contains(&h) {
                        Lookup::Gone
                    } else {
                        Lookup::Outlived
                    },
                }
            },
        }
    }

    /// Is `h` a handle from a world that no longer exists?
    pub fn outlived_its_world(&self, h: i64) -> (r: bool)
        ensures
            r == self.outlived(h),
    {
        match self.body_of(h) {
            Lookup::Outlived => true,
            _ => false,
        }
    }

    /// 1 where `h` names a live body, 0 otherwise.
    pub fn alive(&self, h: i64) -> (r: i64)
        ensures
            r == (if self.named(h) is Some {
                1int
            } else {
                0
            }),
    {
        match self.body_of(h) {
            Lookup::Live(_) => 1,
            _ => 0,
        }
    }

    /// Remove a body and return what the solver must drop. The handle reads as
    /// nothing from then on; a second removal finds nothing.
    pub fn remove(&mut self, h: i64) -> (r: Option<Body3>)
        requires
            old(self).wf(),
        ensures
            final(self).wf(),
            r == old(self).named(h),
            r is None ==> *final(self) == *old(self),
            r is Some ==> {
                &&& final(self).registry@ == old(self).registry@.remove(key(h))
                &&& final(self).removed@ == old(self).removed@.insert(h)
                &&& final(self).query_dirty
                &&& final(self).hit_body == old(self).hit_body
            },
            forall|k: Key|
                #[trigger] final(self).registry.issued(k) <==> old(self).registry.issued(k),
            final(self).registry.live_len() == old(self).registry.live_len() - (if r is Some {
                1int
            } else {
                0
            }),
            follows(*old(self), *final(self)),
            final(self).registry.slots_len() == old(self).registry.slots_len(),
            r is Some && key(h).gen < crate::slot::GEN_MAX ==> !final(self).registry.full(),
    {
        match Key::from_i64(h) {
            None => None,
            Some(k) => {
                assert(k == key(h));
                let ghost a = *self;
                match self.registry.remove(k) {
                    None => None,
                    Some(b) => {
                        proof {
                            a.registry.lemma_live(k);
                        }
                        self.removed.insert(h);
                        self.query_dirty = true;
                        assert forall|r: i64| #[trigger] self.removed@.contains(r) implies r
                            >= 0x1_0000_0000 && self.registry.issued(key(r))
                            && !self.registry@.dom().contains(key(r)) by {
                            if r != h {
                                assert(a.removed@.contains(r));
                                assert(a.registry.issued(key(r)));
                            }
                        }
                        Some(b)
                    },
                }
            },
        }
    }

    /// Put `b` in place of what `h` names.
    fn put(&mut self, h: i64, b: Body3)
        requires
            old(self).wf(),
            old(self).named(h) is Some,
        ensures
            final(self).wf(),
            *final(self) == (Bodies { registry: final(self).registry, ..*old(self) }),
            final(self).registry@ == old(self).registry@.insert(key(h), b),
            final(self).registry.same_keys(old(self).registry),
            follows(*old(self), *final(self)),
    {
        let ghost a = *self;
        if let Some(k) = Key::from_i64(h) {
            assert(k == key(h));
            self.registry.set(k, b);
            assert forall|r: i64| #[trigger] self.removed@.contains(r) implies r >= 0x1_0000_0000
                && self.registry.issued(key(r)) && !self.registry@.dom().contains(key(r)) by {
                assert(a.registry.issued(key(r)));
            }
        }
    }

    /// Note how a character's move ended.
    pub fn set_grounded(&mut self, h: i64, grounded: bool)
        requires
            old(self).wf(),
        ensures
            final(self).wf(),
            match old(self).named(h) {
                None => *final(self) == *old(self),
                Some(b) => {
                    &&& *final(self) == (Bodies { registry: final(self).registry, ..*old(self) })
                    &&& final(self).registry@ == old(self).registry@.insert(
                        key(h),
                        (Body3 { grounded, ..b }),
                    )
                },
            },
            final(self).registry.same_keys(old(self).registry),
            follows(*old(self), *final(self)),
    {
        if let Lookup::Live(b) = self.body_of(h) {
            self.put(h, Body3 { grounded, ..b });
        }
    }

    /// 1 where a character stands on the ground, 0 otherwise.
    pub fn grounded(&self, h: i64) -> (r: i64)
        ensures
            r == (match self.named(h) {
                Some(b) => if b.grounded {
                    1int
                } else {
                    0
                },
                None => 0,
            }),
    {
        match self.body_of(h) {
            Lookup::Live(b) => if b.grounded {
                1
            } else {
                0
            },
            _ => 0,
        }
    }

    /// Whether THIS character is stopped by other characters.
    pub fn character_solid(&mut self, h: i64, on: i64)
        requires
            old(self).wf(),
        ensures
            final(self).wf(),
            match old(self).named(h) {
                None => *final(self) == *old(self),
                Some(b) => {
                    &&& *final(self) == (Bodies { registry: final(self).registry, ..*old(self) })
                    &&& final(self).registry@ == old(self).registry@.insert(
                        key(h),
                        (Body3 { solid: on != 0, ..b }),
                    )
                },
            },
            final(self).registry.same_keys(old(self).registry),
            follows(*old(self), *final(self)),
    {
        if let Lookup::Live(b) = self.body_of(h) {
            self.put(h, Body3 { solid: on != 0, ..b });
        }
    }

    /// Whether OTHER characters are stopped by this one. Returns the collider and
    /// the groups it is now in, for the solver.
    pub fn character_blocking(&mut self, h: i64, on: i64) -> (r: Option<((u32, u32), u32)>)
        requires
            old(self).wf(),
        ensures
            final(self).wf(),
            match old(self).named(h) {
                None => r is None && *final(self) == *old(self),
                Some(b) => {
                    let members = if on != 0 {
                        GROUP_CHARACTER
                    } else {
                        GROUP_GHOST
                    };
                    &&& r == Some((b.collider, members))
                    &&& *final(self) == (Bodies { registry: final(self).registry, ..*old(self) })
                    &&& final(self).registry@ == old(self).registry@.insert(
                        key(h),
                        (Body3 { members, ..b }),
                    )
                },
            },
            final(self).registry.same_keys(old(self).registry),
            follows(*old(self), *final(self)),
    {
        if let Lookup::Live(b) = self.body_of(h) {
            let members: u32 = if on != 0 {
                GROUP_CHARACTER
            } else {
                GROUP_GHOST
            };
            self.put(h, Body3 { members, ..b });
            Some((b.collider, members))
        } else {
            None
        }
    }

    /// The groups a character's move is resolved against: the world, and blocking
    /// characters too when it is solid.
    pub fn move_mask(&self, h: i64) -> (r: u32)
        ensures
            r == (match self.named(h) {
                Some(b) => if b.solid {
                    (GROUP_WORLD | GROUP_CHARACTER)
                } else {
                    GROUP_WORLD
                },
                None => GROUP_WORLD,
            }),
    {
        match self.body_of(h) {
            Lookup::Live(b) => if b.solid {
                GROUP_WORLD | GROUP_CHARACTER
            } else {
                GROUP_WORLD
            },
            _ => GROUP_WORLD,
        }
    }

    /// The collider a query is to skip: that of `h`, nothing for a dead or
    /// negative handle.
    pub fn col_of(&self, h: i64) -> (r: Option<(u32, u32)>)
        ensures
            r == (match self.named(h) {
                Some(b) => Some(b.collider),
                None => None,
            }),
    {
        match self.body_of(h) {
            Lookup::Live(b) => Some(b.collider),
            _ => None,
        }
    }

    /// The rigid body `h` names.
    pub fn rb_of(&self, h: i64) -> (r: Option<(u32, u32)>)
        ensures
            r == (match self.named(h) {
                Some(b) => Some(b.body),
                None => None,
            }),
    {
        match self.body_of(h) {
            Lookup::Live(b) => Some(b.body),
            _ => None,
        }
    }

    /// The handle a query result belongs to, or -1. `raw` is the number stamped
    /// into the collider; a collider of no registered body holds one that names
    /// nothing.
    pub fn body_handle_of(&self, raw: i64) -> (r: i64)
        ensures
            r == (if self.named(raw) is Some {
                raw as int
            } else {
                -1
            }),
    {
        match self.body_of(raw) {
            Lookup::Live(_) => raw,
            _ => -1,
        }
    }

    /// Note what a cast met, `None` for nothing, and return its handle.
    pub fn record_hit(&mut self, raw: Option<i64>) -> (r: i64)
        requires
            old(self).wf(),
        ensures
            final(self).wf(),
            *final(self) == (Bodies { hit_body: r, ..*old(self) }),
            follows(*old(self), *final(self)),
            r == (match raw {
                Some(h) => if old(self).named(h) is Some {
                    h as int
                } else {
                    -1
                },
                None => -1,
            }),
    {
        let r: i64 = match raw {
            Some(h) => self.body_handle_of(h),
            None => -1,
        };
        self.hit_body = r;
        r
    }

    /// Something moved or changed: the next query must rebuild.
    pub fn touch(&mut self)
        requires
            old(self).wf(),
        ensures
            final(self).wf(),
            *final(self) == (Bodies { query_dirty: true, ..*old(self) }),
            follows(*old(self), *final(self)),
    {
        self.query_dirty = true;
    }

    /// Whether the query structure must be rebuilt now; it counts as rebuilt
    /// afterwards.
    pub fn sync_queries(&mut self) -> (rebuild: bool)
        requires
            old(self).wf(),
        ensures
            final(self).wf(),
            rebuild == old(self).query_dirty,
            *final(self) == (Bodies { query_dirty: false, ..*old(self) }),
            follows(*old(self), *final(self)),
    {
        let rebuild: bool = self.query_dirty;
        self.query_dirty = false;
        rebuild
    }

    /// The live characters, in slot order.
    pub fn characters(&self) -> (r: Vec<Character>)
        requires
            self.wf(),
        ensures
            r@ == characters_in(self.registry, self.registry.slots_len() as int),
    {
        let n: usize = self.registry.slot_count();
        let mut out: Vec<Character> = Vec::new();
        let mut s: usize = 0;
        while s < n
            invariant
                self.wf(),
                s <= n == self.registry.slots_len(),
                out@ == characters_in(self.registry, s as int),
            decreases n - s,
        {
            if let Some(k) = self.registry.key_at(s) {
                if let Some(b) = self.registry.get(k) {
                    if b.capsule.is_some() {
                        out.push(
                            Character {
                                key: k,
                                solid: b.solid,
                                blocking: b.members & GROUP_CHARACTER != 0,
                            },
                        );
                    }
                }
            }
            s += 1;
        }
        out
    }

    /// How many characters separation can see.
    pub fn character_count(&self) -> (r: i64)
        requires
            self.wf(),
            self.registry.slots_len() <= i64::MAX,
        ensures
            r == characters_in(self.registry, self.registry.slots_len() as int).len(),
    {
        let v = self.characters();
        proof {
            lemma_characters_len(self.registry, self.registry.slots_len() as int);
        }
        v.len() as i64
    }

    /// Rigid bodies registered and handle slots ever allocated.
    pub fn census(&self) -> (r: (usize, usize))
        ensures
            r.0 == self.registry.live_len(),
            r.1 == self.registry.slots_len(),
    {
        (self.registry.len(), self.registry.slot_count())
    }
}

/// What separation needs to know of a character.
#[derive(Clone, Copy, PartialEq, Eq, Structural)]
pub struct Character {
    pub key: Key,
    pub solid: bool,
    pub blocking: bool,
}

/// The characters in the first `n` slots.
pub open spec fn characters_in(m: SlotMap<Body3>, n: int) -> Seq<Character>
    decreases n,
{
    if n <= 0 {
        Seq::empty()
    } else {
        let rest = characters_in(m, n - 1);
        match m.key_of(n - 1) {
            Some(k) => if m@[k].capsule is Some {
                rest.push(
                    Character { key: k, solid: m@[k].solid, blocking: m@[k].blocks() },
                )
            } else {
                rest
            },
            None => rest,
        }
    }
}

proof fn lemma_characters_len(m: SlotMap<Body3>, n: int)
    requires
        0 <= n,
    ensures
        characters_in(m, n).len() <= n,
    decreases n,
{
    if n > 0 {
        lemma_characters_len(m, n - 1);
    }
}

/// Which of an overlapping pair moves.
#[derive(Clone, Copy, PartialEq, Eq, Structural, Debug)]
pub enum Give {
    /// Each half the way.
    Both,
    First,
    Second,
}

/// A solid character gives way to a blocking one; if each does, they share it; if
/// neither does, nothing happens.
pub open spec fn gives(a: Character, b: Character) -> Option<Give> {
    match (a.solid && b.blocking, b.solid && a.blocking) {
        (true, true) => Some(Give::Both),
        (true, false) => Some(Give::First),
        (false, true) => Some(Give::Second),
        (false, false) => None,
    }
}

pub fn give_way(a: Character, b: Character) -> (r: Option<Give>)
    ensures
        r == gives(a, b),
{
    match (a.solid && b.blocking, b.solid && a.blocking) {
        (true, true) => Some(Give::Both),
        (true, false) => Some(Give::First),
        (false, true) => Some(Give::Second),
        (false, false) => None,
    }
}

/// One correction: characters `i` and `j` of the list overlap.
#[derive(Clone, Copy, PartialEq, Eq, Structural)]
pub struct Push {
    pub i: usize,
    pub j: usize,
    pub give: Give,
}

/// The corrections among the first `p` cells of the pair table, where cell
/// `i * n + j` stands for the pair `(i, j)`.
pub open spec fn pushes(chars: Seq<Character>, overlap: Seq<bool>, p: int) -> Seq<Push>
    decreases p,
{
    if p <= 0 {
        Seq::empty()
    } else {
        let rest = pushes(chars, overlap, p - 1);
        let i = (p - 1) / chars.len() as int;
        let j = (p - 1) % chars.len() as int;
        match gives(chars[i], chars[j]) {
            Some(give) => if i < j && overlap[p - 1] {
                rest.push(Push { i: i as usize, j: j as usize, give })
            } else {
                rest
            },
            None => rest,
        }
    }
}

/// Decide every correction of one step. `overlap[i * n + j]` says that characters
/// `i < j` stand inside each other. The number of corrections is the number of
/// pairs separated.
pub fn separate_characters(chars: &Vec<Character>, overlap: &Vec<bool>) -> (r: Vec<Push>)
    requires
        overlap@.len() == chars@.len() * chars@.len(),
    ensures
        r@ == pushes(chars@, overlap@, overlap@.len() as int),
{
    let n: usize = chars.len();
    let mut out: Vec<Push> = Vec::new();
    let mut p: usize = 0;
    while p < overlap.len()
        invariant
            p <= overlap@.len(),
            n == chars@.len(),
            overlap@.len() == n * n,
            out@ == pushes(chars@, overlap@, p as int),
        decreases overlap@.len() - p,
    {
        proof {
            assert(n > 0) by (nonlinear_arith)
                requires
                    p < n * n,
                    n >= 0,
            ;
            assert(p / n < n) by (nonlinear_arith)
                requires
                    0 <= p < n * n,
                    n > 0,
            ;
        }
        let i: usize = p / n;
        let j: usize = p % n;
        if i < j && overlap[p] {
            if let Some(give) = give_way(chars[i], chars[j]) {
                out.push(Push { i, j, give });
            }
        }
        p += 1;
    }
    out
}

/// Whoever moves is solid, and moves for someone who blocks.
pub proof fn law_only_the_solid_give_way(a: Character, b: Character)
    ensures
        gives(a, b) == Some(Give::First) ==> a.solid && b.blocking,
        gives(a, b) == Some(Give::Second) ==> b.solid && a.blocking,
        gives(a, b) == Some(Give::Both) ==> a.solid && a.blocking && b.solid && b.blocking,
        !a.solid && !b.solid ==> gives(a, b) is None,
        !a.blocking && !b.blocking ==> gives(a, b) is None,
{
}

/// Neither is privileged: seen from the other side, the other one is the one that
/// moves.
pub proof fn law_giving_way_is_even_handed(a: Character, b: Character)
    ensures
        gives(a, b) == Some(Give::Both) <==> gives(b, a) == Some(Give::Both),
        gives(a, b) == Some(Give::First) <==> gives(b, a) == Some(Give::Second),
        gives(a, b) is None <==> gives(b, a) is None,
{
}

/// Every correction is of an overlapping pair, taken once.
pub proof fn law_each_overlap_is_corrected_once(
    chars: Seq<Character>,
    overlap: Seq<bool>,
    p: int,
    x: int,
)
    requires
        0 <= x < pushes(chars, overlap, p).len(),
        chars.len() <= usize::MAX,
        p <= chars.len() * chars.len(),
    ensures
        ({
            let q = pushes(chars, overlap, p)[x];
            &&& q.i < q.j < chars.len()
            &&& q.i * chars.len() + q.j < p
            &&& overlap[q.i * chars.len() + q.j]
            &&& gives(chars[q.i as int], chars[q.j as int]) == Some(q.give)
        }),
        forall|y: int|
            0 <= y < pushes(chars, overlap, p).len() && y != x ==> {
                let q = pushes(chars, overlap, p)[x];
                let r = #[trigger] pushes(chars, overlap, p)[y];
                q.i * chars.len() + q.j != r.i * chars.len() + r.j
            },
    decreases p,
{
    let n = chars.len() as int;
    if p > 0 {
        let all = pushes(chars, overlap, p);
        let rest = pushes(chars, overlap, p - 1);
        let i = (p - 1) / n;
        let j = (p - 1) % n;
        assert(n > 0) by (nonlinear_arith)
            requires
                p > 0,
                p <= n * n,
                n >= 0,
        ;
        assert(i * n + j == p - 1 && 0 <= j < n && 0 <= i < n) by (nonlinear_arith)
            requires
                i == (p - 1) / n,
                j == (p - 1) % n,
                0 <= p - 1 < n * n,
                n > 0,
        ;
        if x < rest.len() {
            law_each_overlap_is_corrected_once(chars, overlap, p - 1, x);
            assert(all[x] == rest[x]);
            assert forall|y: int| 0 <= y < all.len() && y != x implies {
                let q = all[x];
                let r = #[trigger] all[y];
                q.i * n + q.j != r.i * n + r.j
            } by {
                if y < rest.len() {
                    assert(all[y] == rest[y]);
                }
            }
        } else {
            assert forall|y: int| 0 <= y < all.len() && y != x implies {
                let q = all[x];
                let r = #[trigger] all[y];
                q.i * n + q.j != r.i * n + r.j
            } by {
                law_each_overlap_is_corrected_once(chars, overlap, p - 1, y);
                assert(all[y] == rest[y]);
            }
        }
    }
}

/// Register a terrain collider and then drop the one registered before it, if it
/// is of this world. Returns the new handle and what the solver must drop.
pub fn replace_terrain(
    bodies: &mut Bodies,
    previous: i64,
    body: (u32, u32),
    collider: (u32, u32),
) -> (r: (i64, Option<Body3>))
    requires
        old(bodies).wf(),
        old(bodies).registry.room(),
    ensures
        final(bodies).wf(),
        r.1 == old(bodies).named(previous),
        r.0 >= 0x1_0000_0000,
        !old(bodies).registry.issued(key(r.0)),
        final(bodies).registry@ == (if r.1 is Some {
            old(bodies).registry@.remove(key(previous))
        } else {
            old(bodies).registry@
        }).insert(
            key(r.0),
            (Body3 {
                body,
                collider,
                grounded: false,
                solid: false,
                members: GROUP_WORLD,
                capsule: None,
            }),
        ),
        forall|k: Key|
            #[trigger] final(bodies).registry.issued(k) <==> old(bodies).registry.issued(k) || k
                == key(r.0),
        final(bodies).registry.live_len() == old(bodies).registry.live_len() + (if r.1 is Some {
            0int
        } else {
            1
        }),
        final(bodies).registry.slots_len() == old(bodies).registry.slots_len() + (if old(
            bodies,
        ).registry.full() {
            1nat
        } else {
            0
        }),
        final(bodies).removed@ == (if r.1 is Some {
            old(bodies).removed@.insert(previous)
        } else {
            old(bodies).removed@
        }),
        final(bodies).hit_body == old(bodies).hit_body,
        final(bodies).query_dirty,
        follows(*old(bodies), *final(bodies)),
{
    let ghost a = *bodies;
    let h: i64 = bodies.push_body(body, collider, GROUP_WORLD, None);
    proof {
        if a.registry@.dom().contains(key(previous)) {
            a.registry.lemma_live(key(previous));
        }
    }
    let ghost mid = *bodies;
    let gone = if previous == h {
        None
    } else {
        bodies.remove(previous)
    };
    proof {
        if previous >= 0x1_0000_0000 && previous != h {
            crate::slot::law_packing_is_one_to_one(key(previous), key(previous));
            assert(key(previous).packed() == previous);
            assert(key(h).packed() == h);
        }
        assert(bodies.registry@ =~= (if gone is Some {
            a.registry@.remove(key(previous))
        } else {
            a.registry@
        }).insert(key(h), mid.registry@[key(h)]));
    }
    (h, gone)
}

/// What making a new world does to the handles of the one before it, `before`: none
/// names a body any more, and each stays issued.
pub open spec fn remade(before: Bodies, after: Bodies) -> bool {
    &&& after.wf()
    &&& after.registry@ == Map::<Key, Body3>::empty()
    &&& after.removed@ == Set::<i64>::empty()
    &&& after.registry.live_len() == 0
    &&& after.registry.slots_len() == before.registry.slots_len()
    &&& forall|k: Key| #[trigger] after.registry.issued(k) <==> before.registry.issued(k)
}

/// What every change within one world keeps to: no handle is forgotten, one that names
/// a body now did so before or is new, and one that counts as removed did so before or
/// named a body.
pub open spec fn follows(before: Bodies, after: Bodies) -> bool {
    &&& after.wf()
    &&& after.registry.comes_from(before.registry)
    &&& forall|h: i64| #[trigger]
        after.removed@.contains(h) ==> before.removed@.contains(h) || before.named(h) is Some
}

/// `run` is what the bodies were before, between and after changes, new worlds among
/// them.
pub open spec fn lived(run: Seq<Bodies>) -> bool {
    forall|m: int|
        0 <= m < run.len() - 1 ==> follows(#[trigger] run[m], run[m + 1]) || remade(
            run[m],
            run[m + 1],
        )
}

/// A handle that was issued and names no body never names one again, whatever is
/// registered, removed or thrown away afterwards.
pub proof fn law_dead_handles_name_nothing(run: Seq<Bodies>, h: i64, i: int, n: int)
    requires
        lived(run),
        0 <= i <= n < run.len(),
        h >= 0x1_0000_0000,
        run[i].registry.issued(key(h)),
        run[i].named(h) is None,
    ensures
        run[n].registry.issued(key(h)),
        run[n].named(h) is None,
    decreases n,
{
    if i < n {
        law_dead_handles_name_nothing(run, h, i, n - 1);
        assert(follows(run[n - 1], run[n - 1 + 1]) || remade(run[n - 1], run[n - 1 + 1]));
    }
}

/// A handle issued by a world before the last `init` never names a body again, and is
/// told apart for good from one the program removed itself, however long the new world
/// and those after it go on.
pub proof fn law_old_handles_are_refused(run: Seq<Bodies>, h: i64, n: int)
    requires
        lived(run),
        1 <= n < run.len(),
        h >= 0x1_0000_0000,
        run[0].registry.issued(key(h)),
        remade(run[0], run[1]),
    ensures
        run[n].named(h) is None,
        run[n].outlived(h),
    decreases n,
{
    if n > 1 {
        law_old_handles_are_refused(run, h, n - 1);
        law_dead_handles_name_nothing(run, h, 1, n - 1);
        assert(follows(run[n - 1], run[n - 1 + 1]) || remade(run[n - 1], run[n - 1 + 1]));
    }
}

/// The bodies of a 2D world: the solver's handle for each of the program's.
pub struct Bodies2 {
    pub registry: SlotMap<(u32, u32)>,
}

impl Bodies2 {
    pub open spec fn wf(self) -> bool {
        self.registry.wf()
    }

    /// The solver body `h` names.
    pub open spec fn named(self, h: i64) -> Option<(u32, u32)> {
        if h >= 0x1_0000_0000 && self.registry@.dom().contains(key(h)) {
            Some(self.registry@[key(h)])
        } else {
            None
        }
    }

    /// A world with no bodies, in which the handles of `prev` are refused.
    pub fn init(prev: Option<Bodies2>) -> (b: Bodies2)
        requires
            prev matches Some(p) ==> p.wf(),
        ensures
            b.wf(),
            b.registry@ == Map::<Key, (u32, u32)>::empty(),
            b.registry.live_len() == 0,
            prev is None ==> b.registry.slots_len() == 0 && forall|k: Key|
                !(#[trigger] b.registry.issued(k)),
            prev matches Some(p) ==> b.registry.slots_len() == p.registry.slots_len() && forall|
                k: Key,
            | #[trigger] b.registry.issued(k) <==> p.registry.issued(k),
            prev matches Some(p) ==> b.registry.comes_from(p.registry),
    {
        let mut registry = match prev {
            Some(p) => p.registry,
            None => SlotMap::new(),
        };
        registry.clear();
        Bodies2 { registry }
    }

    /// Register a solver body and return its handle.
    pub fn add_body(&mut self, body: (u32, u32)) -> (h: i64)
        requires
            old(self).wf(),
            old(self).registry.room(),
        ensures
            final(self).wf(),
            h >= 0x1_0000_0000,
            !old(self).registry.issued(key(h)),
            final(self).registry@ == old(self).registry@.insert(key(h), body),
            forall|k: Key|
                #[trigger] final(self).registry.issued(k) <==> old(self).registry.issued(k) || k
                    == key(h),
            final(self).registry.comes_from(old(self).registry),
            final(self).registry.live_len() == old(self).registry.live_len() + 1,
            final(self).registry.slots_len() == old(self).registry.slots_len() + (if old(
                self,
            ).registry.full() {
                1nat
            } else {
                0
            }),
    {
        let k = self.registry.insert(body);
        let h: i64 = k.to_i64();
        assert(key(h) == k);
        h
    }

    pub fn rb_of(&self, h: i64) -> (r: Option<(u32, u32)>)
        ensures
            r == self.named(h),
    {
        match Key::from_i64(h) {
            None => None,
            Some(k) => {
                assert(k == key(h));
                match self.registry.get(k) {
                    Some(b) => Some(*b),
                    None => None,
                }
            },
        }
    }

    pub fn alive(&self, h: i64) -> (r: i64)
        ensures
            r == (if self.named(h) is Some {
                1int
            } else {
                0
            }),
    {
        if self.rb_of(h).is_some() {
            1
        } else {
            0
        }
    }

    /// Forget a body and return what the solver must drop.
    pub fn remove(&mut self, h: i64) -> (r: Option<(u32, u32)>)
        requires
            old(self).wf(),
        ensures
            final(self).wf(),
            r == old(self).named(h),
            r is None ==> *final(self) == *old(self),
            r is Some ==> final(self).registry@ == old(self).registry@.remove(key(h)),
            forall|k: Key|
                #[trigger] final(self).registry.issued(k) <==> old(self).registry.issued(k),
            final(self).registry.comes_from(old(self).registry),
            final(self).registry.live_len() == old(self).registry.live_len() - (if r is Some {
                1int
            } else {
                0
            }),
            final(self).registry.slots_len() == old(self).registry.slots_len(),
            r is Some && key(h).gen < crate::slot::GEN_MAX ==> !final(self).registry.full(),
    {
        match Key::from_i64(h) {
            None => None,
            Some(k) => {
                assert(k == key(h));
                self.registry.remove(k)
            },
        }
    }

    pub fn census(&self) -> (r: (usize, usize))
        ensures
            r.0 == self.registry.live_len(),
            r.1 == self.registry.slots_len(),
    {
        (self.registry.len(), self.registry.slot_count())
    }
}

/// A solid character always gives way to one that blocks, and only then.
pub proof fn law_the_solid_give_way_to_those_that_block(a: Character, b: Character)
    ensures
        a.solid && b.blocking <==> (gives(a, b) == Some(Give::First) || gives(a, b) == Some(
            Give::Both,
        )),
        b.solid && a.blocking <==> (gives(a, b) == Some(Give::Second) || gives(a, b) == Some(
            Give::Both,
        )),
{
}

/// Every pair that overlaps and of which someone gives way is corrected, each pair of the
/// table before a later one.
pub proof fn law_no_overlap_is_passed_over(
    chars: Seq<Character>,
    overlap: Seq<bool>,
    p: int,
    i: int,
    j: int,
) -> (x: int)
    requires
        chars.len() <= usize::MAX,
        0 <= i < j < chars.len(),
        i * chars.len() + j < p <= chars.len() * chars.len(),
        overlap[i * chars.len() + j],
        gives(chars[i], chars[j]) is Some,
    ensures
        0 <= x < pushes(chars, overlap, p).len(),
        pushes(chars, overlap, p)[x].i == i,
        pushes(chars, overlap, p)[x].j == j,
        Some(pushes(chars, overlap, p)[x].give) == gives(chars[i], chars[j]),
        pushes(chars, overlap, p - 1).is_prefix_of(pushes(chars, overlap, p)),
    decreases p,
{
    let n = chars.len() as int;
    let at = i * n + j;
    assert(at / n == i && at % n == j && at >= 0) by (nonlinear_arith)
        requires
            at == i * n + j,
            0 <= i,
            0 <= j < n,
    ;
    if at == p - 1 {
        pushes(chars, overlap, p).len() - 1
    } else {
        let x = law_no_overlap_is_passed_over(chars, overlap, p - 1, i, j);
        assert(pushes(chars, overlap, p)[x] == pushes(chars, overlap, p - 1)[x]);
        x
    }
}

/// The characters are the bodies with a capsule, in the order of their slots, each solid
/// and blocking as its body is: every such body is one of them.
pub proof fn law_bodies_with_a_capsule_are_characters(m: SlotMap<Body3>, n: int, s: int) -> (i: int)
    requires
        0 <= s < n,
        m.key_of(s) is Some,
        m@[m.key_of(s)->0].capsule is Some,
    ensures
        0 <= i < characters_in(m, n).len(),
        characters_in(m, n)[i].key == m.key_of(s)->0,
        characters_in(m, n)[i].solid == m@[m.key_of(s)->0].solid,
        characters_in(m, n)[i].blocking == m@[m.key_of(s)->0].blocks(),
    decreases n,
{
    if s == n - 1 {
        characters_in(m, n).len() - 1
    } else {
        let i = law_bodies_with_a_capsule_are_characters(m, n - 1, s);
        assert(characters_in(m, n)[i] == characters_in(m, n - 1)[i]);
        i
    }
}

/// Nobody is a character without a capsule.
pub proof fn law_characters_have_a_capsule(m: SlotMap<Body3>, n: int, i: int) -> (s: int)
    requires
        0 <= i < characters_in(m, n).len(),
    ensures
        0 <= s < n,
        m.key_of(s) == Some(characters_in(m, n)[i].key),
        m@[characters_in(m, n)[i].key].capsule is Some,
    decreases n,
{
    let less = characters_in(m, n - 1);
    if i < less.len() {
        law_characters_have_a_capsule(m, n - 1, i)
    } else {
        n - 1
    }
}

/// A body is in the way of others exactly where it is in the group of the characters,
/// whatever else it is in.
pub proof fn law_members_of_the_group_block(b: Body3, c: Body3)
    requires
        c.members == b.members | GROUP_CHARACTER,
    ensures
        c.blocks(),
        b.members == 0 || b.members == GROUP_WORLD ==> !b.blocks(),
{
    let (m, k) = (b.members, c.members);
    assert(k & 2 != 0) by (bit_vector)
        requires
            k == m | 2,
    ;
    assert(0u32 & 2 == 0 && 1u32 & 2 == 0) by (bit_vector);
}

/// A handle is its slot and, in the higher half, its generation: different handles stand
/// for different keys.
pub proof fn law_body_handles_are_told_apart(g: i64, h: i64)
    requires
        0 <= g,
        0 <= h,
    ensures
        key(h).gen * 0x1_0000_0000 + key(h).slot == h,
        key(g) == key(h) <==> g == h,
{
}

/// Every body in a world is named by its packed key. A packed key that names nothing and
/// was not removed here comes from a world before.
pub proof fn law_live_bodies_are_named(w: Bodies, k: Key)
    requires
        k.valid(),
    ensures
        w.registry@.dom().contains(k) ==> w.named(k.packed() as i64) == Some(w.registry@[k])
            && !w.outlived(k.packed() as i64),
        !w.registry@.dom().contains(k) ==> w.named(k.packed() as i64) is None,
        !w.registry@.dom().contains(k) && !w.removed@.contains(k.packed() as i64) ==> w.outlived(
            k.packed() as i64,
        ),
        w.removed@.contains(k.packed() as i64) ==> !w.outlived(k.packed() as i64),
{
    crate::slot::law_keys_are_packed_in_halves(k);
    assert(key(k.packed() as i64) == k);
}

/// Every body of a flat world is named by its packed key, and a key of none names nothing.
pub proof fn law_live_flat_bodies_are_named(w: Bodies2, k: Key)
    requires
        k.valid(),
    ensures
        w.registry@.dom().contains(k) ==> w.named(k.packed() as i64) == Some(w.registry@[k]),
        !w.registry@.dom().contains(k) ==> w.named(k.packed() as i64) is None,
{
    crate::slot::law_keys_are_packed_in_halves(k);
    assert(key(k.packed() as i64) == k);
}

} // verus!
