//! Entities, components, queries and scene files.
use aurora::scene::{scene_load, scene_save};
use aurora::slot::{Key, SlotMap};
use aurora::world::{Queries, World};

const POS: i64 = 11;
const VEL: i64 = 22;

#[test]
fn a_component_is_what_was_stored_last() {
    let mut w = World::new();
    let e = w.spawn_entity();
    assert!(w.get_component(e, POS).is_none());
    w.store_component(e, POS, vec![1, 2, 3]);
    w.store_component(e, POS, vec![9]);
    assert_eq!(w.get_component(e, POS), Some(&vec![9]));
    assert!(w.get_component(e, VEL).is_none());
}

#[test]
fn a_query_gives_those_that_carry_everything() {
    let mut w = World::new();
    let es: Vec<i64> = (0..4).map(|_| w.spawn_entity()).collect();
    for e in &es {
        w.store_component(*e, POS, vec![]);
    }
    w.store_component(es[1], VEL, vec![]);
    w.store_component(es[3], VEL, vec![]);
    assert_eq!(w.matches(&[POS, VEL]), vec![es[1], es[3]]);
    assert_eq!(w.matches(&[]), es);
    w.despawn(es[1]);
    assert_eq!(w.matches(&[POS, VEL]), vec![es[3]]);
    assert!(w.get_component(es[1], POS).is_none());
    assert_eq!(w.entity_count(), 3);
    assert_ne!(w.spawn_entity(), es[1], "an id is not used again");
}

#[test]
fn nested_queries_do_not_disturb_each_other() {
    let mut w = World::new();
    let a = w.spawn_entity();
    let b = w.spawn_entity();
    w.store_component(a, POS, vec![]);
    w.store_component(b, POS, vec![]);
    w.store_component(b, VEL, vec![]);
    let mut q = Queries::new();
    assert_eq!(q.query_entity(0), -1);
    assert_eq!(q.query_begin(&w, &[POS]), 2);
    assert_eq!(q.query_entity(0), a);
    assert_eq!(q.query_begin(&w, &[VEL]), 1);
    assert_eq!(q.query_entity(0), b);
    assert_eq!(q.query_entity(1), -1);
    // What the inner loop stores does not change what the outer one walks.
    w.store_component(a, VEL, vec![]);
    q.query_end();
    assert_eq!(q.query_entity(0), a);
    assert_eq!(q.query_entity(1), b);
    q.query_end();
    assert_eq!(q.query_entity(0), -1);
}

#[test]
fn a_scene_round_trips() {
    let mut w = World::new();
    for i in 0..3 {
        let e = w.spawn_entity();
        w.store_component(e, POS, vec![i as u8; i]);
    }
    w.despawn(1);
    let file = scene_save(&w);
    assert_eq!(&file[..4], b"ASCN");
    let mut back = scene_load(&file).expect("a scene");
    assert_eq!(back.entities, vec![0, 2]);
    assert_eq!(back.get_component(2, POS), Some(&vec![2, 2]));
    assert_eq!(back.get_component(0, POS), Some(&vec![]));
    assert_eq!(back.spawn_entity(), 3, "new ids go on from the old ones");
}

#[test]
fn a_broken_scene_is_refused() {
    let mut w = World::new();
    let e = w.spawn_entity();
    w.store_component(e, POS, vec![1, 2, 3, 4]);
    let file = scene_save(&w);
    for cut in 0..file.len() {
        assert!(scene_load(&file[..cut]).is_none(), "cut at {cut}");
    }
    let mut other = file.clone();
    other[0] = b'X';
    assert!(scene_load(&other).is_none());
    assert!(scene_load(&file).is_some());
}

#[test]
fn a_key_to_something_removed_is_refused_for_good() {
    let mut m: SlotMap<u8> = SlotMap::new();
    let a = m.insert(1);
    assert_eq!(m.get(a), Some(&1));
    assert!(m.set(a, 5));
    assert_eq!(m.remove(a), Some(5));
    assert_eq!(m.remove(a), None);
    let b = m.insert(2);
    assert_eq!(a.slot(), b.slot(), "the slot is reused");
    assert_ne!(a, b);
    assert!(!m.contains(a) && m.contains(b));
    assert!(!m.set(a, 9));
    assert_eq!((m.len(), m.slot_count()), (1, 1));
    assert_eq!(m.key_at(0), Some(b));
    m.clear();
    assert!(!m.contains(b));
    assert_eq!((m.len(), m.slot_count()), (0, 1));
}

#[test]
fn a_key_is_a_number_and_back() {
    let k = Key::from_i64((3 << 32) + 7).unwrap();
    assert_eq!((k.gen, k.slot), (3, 7));
    assert_eq!(k.to_i64(), (3 << 32) + 7);
    for none in [i64::MIN, -1, 0, 1, 0xffff_ffff] {
        assert_eq!(Key::from_i64(none), None);
    }
}

/// An id from before a clear names nothing after it, not even something new.
#[test]
fn cleared_ids_name_nothing() {
    let mut w = World::new();
    let old = w.spawn_entity();
    w.store_component(old, POS, vec![1]);
    w.clear();
    assert_eq!(w.entity_count(), 0);
    assert!(w.get_component(old, POS).is_none());
    let new = w.spawn_entity();
    assert_ne!(new, old);
    w.store_component(new, POS, vec![2]);
    assert!(w.get_component(old, POS).is_none());
}

/// No id is handed out twice, and no entity stands twice.
#[test]
fn ids_are_handed_out_once() {
    let mut w = World::new();
    let mut seen: Vec<i64> = vec![];
    for round in 0..5 {
        for _ in 0..4 {
            let e = w.spawn_entity();
            assert!(!seen.contains(&e));
            seen.push(e);
        }
        let last = seen[seen.len() - 1];
        w.despawn(last);
        w.store_component(last, POS, vec![1]);
        if round == 2 {
            w.clear();
        }
        let mut all = w.entities.clone();
        all.dedup();
        assert_eq!(all.len(), w.entity_count());
        assert!(all.iter().all(|e| *e < w.next));
    }
    assert_eq!(seen, (0..20).collect::<Vec<i64>>());
}
