//! Scene files: the whole world as bytes, and back.
//!
//! `ASCN`, the next entity id, the entities, then every component as entity,
//! type, length and bytes. All numbers are little-endian 64-bit.
use vstd::prelude::*;
use crate::bytes::{get_i64, put_i64};
use crate::bytes;
use crate::world::{Comp, World};
use crate::world;

verus! {

broadcast use bytes::lemma_le64_len;

/// `ASCN`.
pub open spec fn magic() -> Seq<u8> {
    seq![0x41u8, 0x53, 0x43, 0x4e]
}

/// Numbers laid end to end.
pub open spec fn numbers(ns: Seq<i64>) -> Seq<u8>
    decreases ns.len(),
{
    if ns.len() == 0 {
        Seq::empty()
    } else {
        numbers(ns.drop_last()) + bytes::le64(ns.last())
    }
}

pub open spec fn comp_bytes(c: Comp) -> Seq<u8> {
    bytes::le64(c.ent) + bytes::le64(c.tid) + bytes::le64(c.data@.len() as i64) + c.data@
}

/// Components laid end to end.
pub open spec fn comps_bytes(cs: Seq<Comp>) -> Seq<u8>
    decreases cs.len(),
{
    if cs.len() == 0 {
        Seq::empty()
    } else {
        comps_bytes(cs.drop_last()) + comp_bytes(cs.last())
    }
}

pub open spec fn scene_bytes(w: World) -> Seq<u8> {
    magic() + bytes::le64(w.next) + bytes::le64(w.entities@.len() as i64) + numbers(w.entities@)
        + bytes::le64(w.comps@.len() as i64) + comps_bytes(w.comps@)
}

/// What a scene file says.
#[verifier::ext_equal]
pub struct SceneModel {
    pub next: i64,
    pub entities: Seq<i64>,
    pub comps: Map<(i64, i64), Seq<u8>>,
}

pub open spec fn not_negative(n: i64) -> int {
    if n < 0 {
        0
    } else {
        n as int
    }
}

/// The `n` components from `pos` on added to `m`, and where they end; nothing
/// where the bytes run out. A later component of one entity and type stands.
pub open spec fn read_comps(b: Seq<u8>, pos: int, n: int, m: Map<(i64, i64), Seq<u8>>) -> Option<
    Map<(i64, i64), Seq<u8>>,
>
    decreases n,
{
    if n <= 0 {
        Some(m)
    } else if pos + 24 > b.len() {
        None
    } else {
        let size = not_negative(bytes::le64_at(b, pos + 16));
        if pos + 24 + size > b.len() {
            None
        } else {
            read_comps(
                b,
                pos + 24 + size,
                n - 1,
                m.insert(
                    (bytes::le64_at(b, pos), bytes::le64_at(b, pos + 8)),
                    b.subrange(pos + 24, pos + 24 + size),
                ),
            )
        }
    }
}

/// What a scene file says, if it is one.
pub open spec fn read_scene(b: Seq<u8>) -> Option<SceneModel> {
    if b.len() < 4 || b.take(4) != magic() || b.len() < 20 {
        None
    } else {
        let n = not_negative(bytes::le64_at(b, 12));
        let at = 20 + 8 * n;
        if at + 8 > b.len() {
            None
        } else {
            match read_comps(
                b,
                at + 8,
                not_negative(bytes::le64_at(b, at)),
                Map::<(i64, i64), Seq<u8>>::empty(),
            ) {
                None => None,
                Some(comps) => Some(
                    SceneModel {
                        next: bytes::le64_at(b, 4),
                        entities: Seq::new(n as nat, |i: int| bytes::le64_at(b, 20 + 8 * i)),
                        comps,
                    },
                ),
            }
        }
    }
}

/// The world as a scene file.
pub fn scene_save(w: &World) -> (r: Vec<u8>)
    requires
        w.wf(),
        w.entities@.len() <= i64::MAX,
        w.comps@.len() <= i64::MAX,
        forall|i: int| 0 <= i < w.comps@.len() ==> (#[trigger] w.comps@[i]).data@.len() <= i64::MAX,
    ensures
        r@ == scene_bytes(*w),
{
    let mut b: Vec<u8> = Vec::new();
    b.push(0x41);
    b.push(0x53);
    b.push(0x43);
    b.push(0x4e);
    put_i64(&mut b, w.next);
    put_i64(&mut b, w.entities.len() as i64);
    let ghost head = b@;
    let mut i: usize = 0;
    while i < w.entities.len()
        invariant
            i <= w.entities@.len(),
            b@ == head + numbers(w.entities@.take(i as int)),
        decreases w.entities@.len() - i,
    {
        put_i64(&mut b, w.entities[i]);
        assert(w.entities@.take(i + 1).drop_last() =~= w.entities@.take(i as int));
        i += 1;
    }
    assert(w.entities@.take(i as int) =~= w.entities@);
    put_i64(&mut b, w.comps.len() as i64);
    let ghost head2 = b@;
    let mut i: usize = 0;
    while i < w.comps.len()
        invariant
            i <= w.comps@.len(),
            b@ == head2 + comps_bytes(w.comps@.take(i as int)),
            forall|i: int|
                0 <= i < w.comps@.len() ==> (#[trigger] w.comps@[i]).data@.len() <= i64::MAX,
        decreases w.comps@.len() - i,
    {
        let c = &w.comps[i];
        let ghost before = b@;
        put_i64(&mut b, c.ent);
        put_i64(&mut b, c.tid);
        put_i64(&mut b, c.data.len() as i64);
        let ghost mid = b@;
        let mut k: usize = 0;
        while k < c.data.len()
            invariant
                k <= c.data@.len(),
                b@ == mid + c.data@.take(k as int),
            decreases c.data@.len() - k,
        {
            b.push(c.data[k]);
            assert(c.data@.take(k + 1) =~= c.data@.take(k as int).push(c.data@[k as int]));
            k += 1;
        }
        assert(c.data@.take(k as int) =~= c.data@);
        assert(b@ =~= before + comp_bytes(*c));
        assert(w.comps@.take(i + 1).drop_last() =~= w.comps@.take(i as int));
        assert(b@ =~= head2 + comps_bytes(w.comps@.take(i + 1)));
        i += 1;
    }
    assert(w.comps@.take(i as int) =~= w.comps@);
    assert(b@ =~= scene_bytes(*w));
    b
}

/// The world a scene file holds; nothing where it is not a whole scene file.
pub fn scene_load(b: &[u8]) -> (r: Option<World>)
    ensures
        r is Some <==> read_scene(b@) is Some,
        r matches Some(w) ==> {
            let m = read_scene(b@)->0;
            &&& w.wf()
            &&& w.next == m.next
            &&& w.entities@ == m.entities
            &&& w.map() == m.comps
        },
{
    let len: usize = b.len();
    if len < 4 {
        return None;
    }
    if b[0] != 0x41 || b[1] != 0x53 || b[2] != 0x43 || b[3] != 0x4e {
        assert(b@.take(4)[0] == b@[0] && b@.take(4)[1] == b@[1] && b@.take(4)[2] == b@[2] && b@.take(
            4,
        )[3] == b@[3]);
        return None;
    }
    assert(b@.take(4) =~= magic());
    let mut pos: usize = 4;
    let mut world = World::new();
    match get_i64(b, &mut pos) {
        None => {
            return None;
        },
        Some(n) => {
            world.next = n;
        },
    }
    let n_ent: i64 = match get_i64(b, &mut pos) {
        None => {
            return None;
        },
        Some(n) => n,
    };
    let ghost n = not_negative(n_ent);
    let ghost next = world.next;
    let mut i: i64 = 0;
    while i < n_ent
        invariant
            0 <= i <= n,
            n == not_negative(n_ent),
            n_ent == bytes::le64_at(b@, 12),
            len == b@.len() >= 20,
            b@.take(4) == magic(),
            pos == 20 + 8 * i <= len,
            world.wf(),
            world.next == next == bytes::le64_at(b@, 4),
            world.map() == Map::<(i64, i64), Seq<u8>>::empty(),
            world.entities@ == Seq::new(i as nat, |i: int| bytes::le64_at(b@, 20 + 8 * i)),
        decreases n_ent - i,
    {
        match get_i64(b, &mut pos) {
            None => {
                return None;
            },
            Some(e) => {
                world.entities.push(e);
                assert(world.entities@ =~= Seq::new(
                    (i + 1) as nat,
                    |i: int| bytes::le64_at(b@, 20 + 8 * i),
                ));
            },
        }
        i += 1;
    }
    let ghost ents = world.entities@;
    let n_comp: i64 = match get_i64(b, &mut pos) {
        None => {
            return None;
        },
        Some(n) => n,
    };
    let ghost start = pos as int;
    let ghost m = not_negative(n_comp);
    let ghost want = read_comps(b@, start, m, Map::<(i64, i64), Seq<u8>>::empty());
    assert(want is None ==> read_scene(b@) is None);
    let mut i: i64 = 0;
    while i < n_comp
        invariant
            0 <= i <= m,
            m == not_negative(n_comp),
            len == b@.len(),
            pos <= len,
            world.wf(),
            world.next == next,
            world.entities@ == ents,
            want is None ==> read_scene(b@) is None,
            want == read_comps(b@, pos as int, m - i, world.map()),
        decreases n_comp - i,
    {
        let ghost at = pos as int;
        let ent: i64 = match get_i64(b, &mut pos) {
            None => {
                return None;
            },
            Some(v) => v,
        };
        let tid: i64 = match get_i64(b, &mut pos) {
            None => {
                return None;
            },
            Some(v) => v,
        };
        let size: i64 = match get_i64(b, &mut pos) {
            None => {
                return None;
            },
            Some(v) => v,
        };
        let size: u64 = if size < 0 {
            0
        } else {
            size as u64
        };
        if size > (len - pos) as u64 {
            return None;
        }
        let size: usize = size as usize;
        let mut data: Vec<u8> = Vec::new();
        let mut k: usize = 0;
        while k < size
            invariant
                k <= size,
                pos + size <= len == b@.len(),
                data@ == b@.subrange(pos as int, pos + k),
            decreases size - k,
        {
            data.push(b[pos + k]);
            assert(data@ =~= b@.subrange(pos as int, pos + k + 1));
            k += 1;
        }
        world.store_component(ent, tid, data);
        pos += size;
        i += 1;
    }
    Some(world)
}

proof fn lemma_numbers_len(ns: Seq<i64>)
    ensures
        numbers(ns).len() == 8 * ns.len(),
    decreases ns.len(),
{
    if ns.len() > 0 {
        lemma_numbers_len(ns.drop_last());
    }
}

proof fn lemma_numbers_at(ns: Seq<i64>, i: int)
    requires
        0 <= i < ns.len(),
    ensures
        numbers(ns).len() == 8 * ns.len(),
        numbers(ns).subrange(8 * i, 8 * i + 8) == bytes::le64(ns[i]),
    decreases ns.len(),
{
    lemma_numbers_len(ns);
    lemma_numbers_len(ns.drop_last());
    if i < ns.len() - 1 {
        lemma_numbers_at(ns.drop_last(), i);
        assert(numbers(ns).subrange(8 * i, 8 * i + 8) =~= numbers(ns.drop_last()).subrange(
            8 * i,
            8 * i + 8,
        ));
    } else {
        assert(numbers(ns).subrange(8 * i, 8 * i + 8) =~= bytes::le64(ns[i]));
    }
}

/// The components in the map `m` overlaid with `cs`, later ones standing.
pub open spec fn overlay(m: Map<(i64, i64), Seq<u8>>, cs: Seq<Comp>) -> Map<(i64, i64), Seq<u8>>
    decreases cs.len(),
{
    if cs.len() == 0 {
        m
    } else {
        overlay(m.insert(cs[0].key(), cs[0].data@), cs.drop_first())
    }
}

proof fn lemma_comps_split(cs: Seq<Comp>)
    requires
        cs.len() > 0,
    ensures
        comps_bytes(cs) == comp_bytes(cs[0]) + comps_bytes(cs.drop_first()),
    decreases cs.len(),
{
    if cs.len() == 1 {
        assert(cs.drop_last() =~= Seq::empty());
        assert(cs.drop_first() =~= Seq::empty());
        assert(comps_bytes(cs) =~= comp_bytes(cs[0]) + comps_bytes(cs.drop_first()));
    } else {
        lemma_comps_split(cs.drop_last());
        assert(cs.drop_last().drop_first() =~= cs.drop_first().drop_last());
        assert(cs.drop_first().last() == cs.last());
        assert(comps_bytes(cs) =~= comp_bytes(cs[0]) + comps_bytes(cs.drop_first()));
    }
}

/// Reading components back from where they were written.
proof fn lemma_read_comps(b: Seq<u8>, pos: int, cs: Seq<Comp>, m: Map<(i64, i64), Seq<u8>>)
    requires
        0 <= pos <= b.len(),
        b.subrange(pos, b.len() as int) == comps_bytes(cs),
        forall|i: int| 0 <= i < cs.len() ==> (#[trigger] cs[i]).data@.len() <= i64::MAX,
    ensures
        read_comps(b, pos, cs.len() as int, m) == Some(overlay(m, cs)),
    decreases cs.len(),
{
    if cs.len() > 0 {
        lemma_comps_split(cs);
        let c = cs[0];
        let rest = b.subrange(pos, b.len() as int);
        let cb = comp_bytes(c);
        let size = c.data@.len() as int;
        assert(cb.len() == 24 + size);
        assert(rest.len() == cb.len() + comps_bytes(cs.drop_first()).len());
        assert(b.len() - pos >= 24 + size);
        assert(b.subrange(pos, pos + 8) =~= rest.subrange(0, 8));
        assert(rest.subrange(0, 8) =~= bytes::le64(c.ent));
        bytes::lemma_le64_round_trip(c.ent, b, pos);
        assert(b.subrange(pos + 8, pos + 16) =~= rest.subrange(8, 16));
        assert(rest.subrange(8, 16) =~= bytes::le64(c.tid));
        bytes::lemma_le64_round_trip(c.tid, b, pos + 8);
        assert(b.subrange(pos + 16, pos + 24) =~= rest.subrange(16, 24));
        assert(rest.subrange(16, 24) =~= bytes::le64(size as i64));
        bytes::lemma_le64_round_trip(size as i64, b, pos + 16);
        assert(b.subrange(pos + 24, pos + 24 + size) =~= rest.subrange(24, 24 + size));
        assert(rest.subrange(24, 24 + size) =~= c.data@);
        let at = pos + 24 + size;
        assert(b.subrange(at, b.len() as int) =~= rest.subrange(24 + size, rest.len() as int));
        assert(rest.subrange(24 + size, rest.len() as int) =~= comps_bytes(cs.drop_first()));
        lemma_read_comps(b, at, cs.drop_first(), m.insert(c.key(), c.data@));
    }
}

proof fn lemma_overlay(m: Map<(i64, i64), Seq<u8>>, cs: Seq<Comp>)
    requires
        world::distinct(cs),
    ensures
        overlay(m, cs) == m.union_prefer_right(world::comp_map(cs)),
    decreases cs.len(),
{
    if cs.len() == 0 {
        assert(world::comp_map(cs) =~= Map::empty());
        assert(m.union_prefer_right(world::comp_map(cs)) =~= m);
    } else {
        let rest = cs.drop_first();
        assert(world::distinct(rest)) by {
            assert forall|i: int, j: int|
                #![trigger rest[i], rest[j]]
                0 <= i < j < rest.len() implies rest[i].key() != rest[j].key() by {
                assert(rest[i] == cs[i + 1] && rest[j] == cs[j + 1]);
            }
        }
        let m2 = m.insert(cs[0].key(), cs[0].data@);
        lemma_overlay(m2, rest);
        let l = m2.union_prefer_right(world::comp_map(rest));
        let r = m.union_prefer_right(world::comp_map(cs));
        assert forall|k: (i64, i64)|
            #![trigger l.dom().contains(k)]
            #![trigger r.dom().contains(k)]
            #![trigger l[k]]
            l.dom().contains(k) == r.dom().contains(k) && (r.dom().contains(k) ==> l[k] == r[k]) by {
            world::lemma_comp_map(cs, k);
            world::lemma_comp_map(rest, k);
            if world::comp_map(rest).dom().contains(k) {
                let i = choose|i: int|
                    0 <= i < rest.len() && (#[trigger] rest[i]).key() == k && world::comp_map(
                        rest,
                    )[k] == rest[i].data@;
                assert(cs[i + 1].key() == k);
            }
            if world::comp_map(cs).dom().contains(k) {
                let i = choose|i: int|
                    0 <= i < cs.len() && (#[trigger] cs[i]).key() == k && world::comp_map(cs)[k]
                        == cs[i].data@;
                if i > 0 {
                    assert(rest[i - 1].key() == k);
                } else if world::comp_map(rest).dom().contains(k) {
                    let j = choose|j: int| 0 <= j < rest.len() && (#[trigger] rest[j]).key() == k;
                    assert(cs[j + 1].key() == k);
                }
            }
            assert(cs[0].key() == cs[0].key());
        }
        assert(l =~= r);
    }
}

/// Loading a saved scene gives back the world: the same next id, the same
/// entities in the same order, the same bytes under every entity and type.
pub proof fn law_scene_round_trip(w: World)
    requires
        w.wf(),
        w.entities@.len() <= i64::MAX,
        w.comps@.len() <= i64::MAX,
        forall|i: int| 0 <= i < w.comps@.len() ==> (#[trigger] w.comps@[i]).data@.len() <= i64::MAX,
    ensures
        read_scene(scene_bytes(w)) == Some(
            (SceneModel { next: w.next, entities: w.entities@, comps: w.map() }),
        ),
{
    let b = scene_bytes(w);
    let n = w.entities@.len() as int;
    lemma_numbers_len(w.entities@);
    assert(b.take(4) =~= magic());
    assert(b.subrange(4, 12) =~= bytes::le64(w.next));
    bytes::lemma_le64_round_trip(w.next, b, 4);
    assert(b.subrange(12, 20) =~= bytes::le64(n as i64));
    bytes::lemma_le64_round_trip(n as i64, b, 12);
    assert forall|i: int| 0 <= i < n implies bytes::le64_at(b, 20 + 8 * i) == w.entities@[i] by {
        lemma_numbers_at(w.entities@, i);
        assert(b.subrange(20 + 8 * i, 20 + 8 * i + 8) =~= numbers(w.entities@).subrange(
            8 * i,
            8 * i + 8,
        ));
        bytes::lemma_le64_round_trip(w.entities@[i], b, 20 + 8 * i);
    }
    assert(Seq::new(n as nat, |i: int| bytes::le64_at(b, 20 + 8 * i)) =~= w.entities@);
    let at = 20 + 8 * n;
    assert(b.subrange(at, at + 8) =~= bytes::le64(w.comps@.len() as i64));
    bytes::lemma_le64_round_trip(w.comps@.len() as i64, b, at);
    assert(b.subrange(at + 8, b.len() as int) =~= comps_bytes(w.comps@));
    let empty = Map::<(i64, i64), Seq<u8>>::empty();
    lemma_read_comps(b, at + 8, w.comps@, empty);
    lemma_overlay(empty, w.comps@);
    assert(empty.union_prefer_right(w.map()) =~= w.map());
}

/// A scene file begins with `ASCN` and the next id; then come the number of entities and
/// the entities, and the number of components and the components. A component is its
/// entity, its type, its length and its bytes.
pub proof fn law_a_scene_file_is_laid_out_in_order(w: World, c: Comp, i: int)
    requires
        0 <= i < w.entities@.len() <= i64::MAX,
    ensures
        ({
            let b = scene_bytes(w);
            let at = 20 + 8 * w.entities@.len() as int;
            let x = comp_bytes(c);
            &&& b.subrange(0, 4) == seq!['A' as u8, 'S' as u8, 'C' as u8, 'N' as u8]
            &&& b.subrange(4, 12) == bytes::le64(w.next)
            &&& b.subrange(12, 20) == bytes::le64(w.entities@.len() as i64)
            &&& b.subrange(20 + 8 * i, 28 + 8 * i) == bytes::le64(w.entities@[i])
            &&& b.subrange(at, at + 8) == bytes::le64(w.comps@.len() as i64)
            &&& b.skip(at + 8) == comps_bytes(w.comps@)
            &&& x.len() == 24 + c.data@.len()
            &&& x.subrange(0, 8) == bytes::le64(c.ent)
            &&& x.subrange(8, 16) == bytes::le64(c.tid)
            &&& x.subrange(16, 24) == bytes::le64(c.data@.len() as i64)
            &&& x.skip(24) == c.data@
            &&& comps_bytes(w.comps@.push(c)) == comps_bytes(w.comps@) + x
        }),
{
    let b = scene_bytes(w);
    let at = 20 + 8 * w.entities@.len() as int;
    let x = comp_bytes(c);
    lemma_numbers_len(w.entities@);
    bytes::lemma_le64_len(w.next);
    bytes::lemma_le64_len(w.entities@.len() as i64);
    bytes::lemma_le64_len(w.comps@.len() as i64);
    bytes::lemma_le64_len(c.ent);
    bytes::lemma_le64_len(c.tid);
    bytes::lemma_le64_len(c.data@.len() as i64);
    assert(b.subrange(0, 4) =~= magic());
    assert(magic() =~= seq!['A' as u8, 'S' as u8, 'C' as u8, 'N' as u8]);
    assert(b.subrange(4, 12) =~= bytes::le64(w.next));
    assert(b.subrange(12, 20) =~= bytes::le64(w.entities@.len() as i64));
    lemma_numbers_at(w.entities@, i);
    assert(b.subrange(20 + 8 * i, 28 + 8 * i) =~= numbers(w.entities@).subrange(
        8 * i,
        8 * i + 8,
    ));
    assert(b.subrange(at, at + 8) =~= bytes::le64(w.comps@.len() as i64));
    assert(b.skip(at + 8) =~= comps_bytes(w.comps@));
    assert(x.subrange(0, 8) =~= bytes::le64(c.ent));
    assert(x.subrange(8, 16) =~= bytes::le64(c.tid));
    assert(x.subrange(16, 24) =~= bytes::le64(c.data@.len() as i64));
    assert(x.skip(24) =~= c.data@);
    assert(w.comps@.push(c).drop_last() =~= w.comps@);
}

/// What does not begin with the name of a scene file is none, nor is what is too short for
/// its head or for the entities it announces.
pub proof fn law_other_files_are_no_scenes(b: Seq<u8>)
    ensures
        b.len() < 28 ==> read_scene(b) is None,
        b.len() >= 4 && b.take(4) != magic() ==> read_scene(b) is None,
        b.len() >= 20 && bytes::le64_at(b, 12) >= 0 && b.len() < 28 + 8 * bytes::le64_at(b, 12)
            ==> read_scene(b) is None,
        read_scene(b) matches Some(s) ==> s.next == bytes::le64_at(b, 4) && (bytes::le64_at(b, 12)
            >= 0 ==> s.entities.len() == bytes::le64_at(b, 12)),
{
}

} // verus!
