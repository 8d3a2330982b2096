//! Handles of 3D bodies, held against a real solver's sets.
use aurora::bodies::{
    give_way, replace_terrain, separate_characters, Bodies, Body3, Character, Give, Lookup,
    GROUP_CHARACTER, GROUP_GHOST, GROUP_WORLD,
};
use aurora::slot::Key;
use rapier3d::na::Vector3;
use rapier3d::prelude::{
    ColliderBuilder, ColliderSet, ImpulseJointSet, IslandManager, MultibodyJointSet,
    RigidBodyBuilder, RigidBodyHandle, RigidBodySet,
};

struct World {
    islands: IslandManager,
    bodies: RigidBodySet,
    colliders: ColliderSet,
    impulse: ImpulseJointSet,
    multibody: MultibodyJointSet,
    registry: Bodies,
}

impl World {
    fn init(prev: Option<World>) -> World {
        World {
            islands: IslandManager::new(),
            bodies: RigidBodySet::new(),
            colliders: ColliderSet::new(),
            impulse: ImpulseJointSet::new(),
            multibody: MultibodyJointSet::new(),
            registry: Bodies::init(prev.map(|p| p.registry)),
        }
    }

    fn place(&mut self, x: f32, y: f32, z: f32, r: f32) -> ((u32, u32), (u32, u32)) {
        let rb = RigidBodyBuilder::dynamic().translation(Vector3::new(x, y, z)).build();
        let body = self.bodies.insert(rb);
        let col = ColliderBuilder::ball(r).build();
        let col = self.colliders.insert_with_parent(col, body, &mut self.bodies);
        (body.into_raw_parts(), col.into_raw_parts())
    }

    fn add(&mut self, x: f32, y: f32, z: f32) -> i64 {
        let (b, c) = self.place(x, y, z, 0.5);
        self.registry.push_body(b, c, GROUP_WORLD, None)
    }

    fn add_character(&mut self, x: f32, y: f32, z: f32, half: f32, radius: f32) -> i64 {
        let (b, c) = self.place(x, y, z, radius);
        let capsule = Some((half.to_bits(), radius.to_bits()));
        self.registry.push_body(b, c, GROUP_CHARACTER, capsule)
    }

    fn drop_body(&mut self, b: Body3) {
        self.bodies.remove(
            RigidBodyHandle::from_raw_parts(b.body.0, b.body.1),
            &mut self.islands,
            &mut self.colliders,
            &mut self.impulse,
            &mut self.multibody,
            true,
        );
    }

    fn remove(&mut self, h: i64) -> i64 {
        match self.registry.remove(h) {
            Some(b) => {
                self.drop_body(b);
                1
            }
            None => 0,
        }
    }

    fn pos(&self, h: i64) -> [f32; 3] {
        let body = self.registry.rb_of(h).map(|(i, g)| RigidBodyHandle::from_raw_parts(i, g));
        match body.and_then(|b| self.bodies.get(b)) {
            Some(b) => [b.translation()[0], b.translation()[1], b.translation()[2]],
            None => [0.0; 3],
        }
    }

    fn census(&self) -> (usize, usize, usize, usize) {
        let (live, slots) = self.registry.census();
        (self.bodies.len(), self.colliders.len(), live, slots)
    }
}

#[test]
fn a_handle_you_removed_yourself_stays_quiet() {
    let mut w = World::init(None);
    let ball = w.add(0.0, 5.0, 0.0);
    assert_eq!(w.remove(ball), 1);
    // Reads answer "nothing" rather than exploding.
    assert_eq!(w.pos(ball)[0], 0.0);
    assert_eq!(w.registry.grounded(ball), 0);
    w.registry.set_grounded(ball, true);
    assert!(matches!(w.registry.body_of(ball), Lookup::Gone));
    assert_eq!(w.remove(ball), 0, "removing twice is not an error");
}

#[test]
fn a_handle_from_before_init_is_refused_loudly() {
    let mut w = World::init(None);
    let doomed = w.add_character(0.0, 1.0, 0.0, 0.5, 0.3);
    let removed_properly = w.add(0.0, 5.0, 0.0);
    assert_eq!(w.remove(removed_properly), 1);
    // Both are stale in the same way from the registry's point of view.
    // Only one of them is a bug.
    assert!(
        !w.registry.outlived_its_world(removed_properly),
        "a body this program removed itself must stay quiet"
    );
    assert!(
        !w.registry.outlived_its_world(doomed),
        "a live body must not be reported as stale"
    );

    // A new world. Everything above is gone, including `doomed`.
    let mut w = World::init(Some(w));
    w.add(0.0, -0.5, 0.0);
    assert!(
        w.registry.outlived_its_world(doomed),
        "a handle issued before the reset must be reported"
    );
    assert!(matches!(w.registry.body_of(doomed), Lookup::Outlived));
    // The removal list is cleared with the world, so a handle removed in
    // the OLD world is stale for the new reason now, and reported.
    assert!(w.registry.outlived_its_world(removed_properly));
    // -1 is the "no body" sentinel and must never be reported.
    assert!(!w.registry.outlived_its_world(-1));

    // And the supported way to ask never stops the program.
    assert_eq!(w.registry.alive(doomed), 0);
    assert_eq!(w.registry.alive(-1), 0);
}

#[test]
fn phys3d_create_and_destroy_cycles_leave_the_world_bounded() {
    let mut w = World::init(None);
    w.add(0.0, -0.5, 0.0);
    let start = w.census();
    assert_eq!(start, (1, 1, 1, 1), "just the ground");

    for i in 0..500 {
        let ball = w.add(0.0, 5.0, 0.0);
        let actor = w.add_character(2.0, 2.0, 0.0, 0.7, 0.4);
        w.registry.set_grounded(actor, true);
        assert_eq!(w.remove(ball), 1, "cycle {i}: ball not removed");
        assert_eq!(w.remove(actor), 1, "cycle {i}: actor not removed");
    }

    let end = w.census();
    assert_eq!(end.0, start.0, "rigid bodies grew");
    assert_eq!(end.1, start.1, "colliders grew");
    assert_eq!(end.2, start.2, "live handles grew");
    // Three slots serve all 500 cycles: the ground plus the two the cycle
    // allocates once and then reuses forever.
    assert_eq!(end.3, 3, "handle slots grew to {}", end.3);
}

#[test]
fn phys3d_removing_a_body_takes_its_collider_down_with_it() {
    let mut w = World::init(None);
    let wall = w.add(0.0, 0.0, 0.0);
    assert_eq!(w.census(), (1, 1, 1, 1));
    assert_eq!(w.remove(wall), 1);
    assert_eq!(w.census(), (0, 0, 0, 1), "an orphaned collider was left behind");
    assert_eq!(w.registry.record_hit(Some(wall)), -1, "a removed body still answered a query");
}

#[test]
fn a_double_remove_is_refused() {
    let mut w = World::init(None);
    let b = w.add(0.0, 0.0, 0.0);
    assert_eq!(w.registry.alive(b), 1);
    assert_eq!(w.remove(b), 1);
    assert_eq!(w.registry.alive(b), 0);
    assert_eq!(w.remove(b), 0, "double free must report nothing");
    assert_eq!(w.remove(-1), 0, "the -1 sentinel is not a body");
    assert_eq!(w.remove(0), 0, "a zeroed handle is not a body");
    assert_eq!(w.registry.alive(-1), 0);
    assert_eq!(w.registry.alive(0), 0);
}

#[test]
fn phys3d_a_removed_handle_is_refused_by_every_accessor_that_takes_one() {
    let mut w = World::init(None);
    let dead = w.add(1.0, 2.0, 3.0);
    assert_eq!(w.remove(dead), 1);
    // The replacement lands in the freed slot. That is exactly the case a
    // bare index gets wrong, so the test is worthless unless it happens.
    let live = w.add(7.0, 8.0, 9.0);
    assert_eq!(
        Key::from_i64(dead).unwrap().slot(),
        Key::from_i64(live).unwrap().slot(),
        "the freed slot must be reused for this test to mean anything"
    );
    assert_ne!(dead, live, "reuse must still change the handle");

    // Readers answer the documented "no such body" value, not `live`'s.
    assert_eq!(w.registry.alive(dead), 0);
    assert_eq!(w.registry.alive(live), 1);
    assert_eq!(w.pos(dead), [0.0; 3]);
    assert_eq!(w.registry.grounded(dead), 0);
    assert_eq!(w.pos(live), [7.0, 8.0, 9.0]);

    // Writers must not land on `live` either.
    assert!(w.registry.rb_of(dead).is_none());
    w.registry.set_grounded(dead, true);
    w.registry.character_solid(dead, 1);
    assert!(w.registry.character_blocking(dead, 0).is_none());
    assert_eq!(w.registry.grounded(live), 0);
    assert_eq!(w.registry.move_mask(live), GROUP_WORLD);
    assert_eq!(w.registry.grounded(dead), 0);

    // Query filters: excluding a dead body must exclude NOTHING, exactly as
    // the -1 sentinel does.
    assert!(w.registry.col_of(-1).is_none());
    assert!(w.registry.col_of(dead).is_none(), "a dead exclude hid a live body");
    assert!(w.registry.col_of(live).is_some(), "a live exclude must still exclude");

    // Queries hand back the LIVE handle, never the stale one.
    assert_eq!(w.registry.record_hit(Some(live)), live);
    assert_eq!(w.registry.hit_body, live);
    assert_eq!(w.registry.body_handle_of(dead), -1);
}

#[test]
fn phys3d_a_handle_from_the_previous_world_is_refused() {
    let mut w = World::init(None);
    let old = w.add(1.0, 1.0, 1.0);
    let mut w = World::init(Some(w));
    assert_eq!(w.registry.alive(old), 0, "a handle outlived its world");
    let new = w.add(4.0, 5.0, 6.0);
    assert_ne!(old, new, "the new world reissued the old world's handle");
    assert_eq!(w.registry.alive(old), 0);
    assert_eq!(w.pos(new)[0], 4.0);
    assert_eq!(w.remove(old), 0);
    assert_eq!(w.registry.alive(new), 1, "the removal hit the wrong body");
}

#[test]
fn phys3d_resetting_the_world_in_a_loop_is_bounded() {
    let mut w = None;
    for _ in 0..200 {
        let mut next = World::init(w.take());
        next.add(0.0, 0.0, 0.0);
        next.add(0.0, 3.0, 0.0);
        w = Some(next);
    }
    assert_eq!(w.unwrap().census(), (2, 2, 2, 2), "a world reset grew the store");
}

fn who(solid: bool, blocking: bool, slot: i64) -> Character {
    let key = Key::from_i64((1 << 32) + slot).unwrap();
    Character { key, solid, blocking }
}

/// The one that gives way is the solid one; two ghosts are left alone.
#[test]
fn only_the_solid_give_way() {
    let player = who(true, true, 0);
    let creature = who(false, true, 1);
    let ghost = who(false, false, 2);
    assert!(matches!(give_way(player, creature), Some(Give::First)));
    assert!(matches!(give_way(creature, player), Some(Give::Second)));
    assert!(matches!(give_way(player, player), Some(Give::Both)));
    assert!(give_way(player, ghost).is_none(), "a ghost stops nobody");
    assert!(give_way(creature, creature).is_none(), "neither gives way");
}

#[test]
fn each_overlap_is_corrected_once() {
    let chars = vec![who(true, true, 0), who(false, true, 1), who(true, true, 2)];
    // Cell i * n + j stands for the pair (i, j); all three stand on each other.
    let all = vec![true; 9];
    let pushes = separate_characters(&chars, &all);
    let got: Vec<(usize, usize, bool)> =
        pushes.iter().map(|p| (p.i, p.j, matches!(p.give, Give::Both))).collect();
    assert_eq!(got, vec![(0, 1, false), (0, 2, true), (1, 2, false)]);
    assert!(separate_characters(&chars, &vec![false; 9]).is_empty());
}

#[test]
fn a_solid_character_is_moved_against_characters_too() {
    let mut w = World::init(None);
    let c = w.add_character(0.0, 1.0, 0.0, 0.5, 0.3);
    assert_eq!(w.registry.move_mask(c), GROUP_WORLD);
    w.registry.character_solid(c, 1);
    assert_eq!(w.registry.move_mask(c), GROUP_WORLD | GROUP_CHARACTER);
    let (_, members) = w.registry.character_blocking(c, 0).unwrap();
    assert_eq!(members, GROUP_GHOST);
    assert_eq!(w.registry.character_count(), 1);
    let chars = w.registry.characters();
    assert_eq!(chars.len(), 1);
    assert!(chars[0].solid && !chars[0].blocking);
    assert_eq!(chars[0].key.to_i64(), c);
}

#[test]
fn a_query_is_rebuilt_once_after_a_change() {
    let mut w = World::init(None);
    w.add(0.0, 0.0, 0.0);
    w.registry.touch();
    assert!(w.registry.sync_queries());
    assert!(!w.registry.sync_queries());
}

/// Reloading a terrain and registering it again must not stack colliders.
#[test]
fn re_registering_terrain_replaces_its_collider_instead_of_stacking_them() {
    let mut w = World::init(None);
    let (b, c) = w.place(0.0, 0.0, 0.0, 1.0);
    let (first, dropped) = replace_terrain(&mut w.registry, -1, b, c);
    assert!(first >= 0, "the first registration must succeed");
    assert!(dropped.is_none());
    assert_eq!(w.census(), (1, 1, 1, 1), "one terrain body, one collider");

    // 200 reloads, each re-registering, exactly as a level-streaming loop does.
    let mut handle = first;
    for i in 0..200 {
        let (b, c) = w.place(0.0, i as f32, 0.0, 1.0);
        let (next, dropped) = replace_terrain(&mut w.registry, handle, b, c);
        w.drop_body(dropped.expect("the collider before it"));
        assert!(next >= 0, "reload {i} failed to register");
        assert_eq!(
            w.registry.alive(handle),
            0,
            "reload {i} left the previous collider alive"
        );
        handle = next;
        let (bodies, colliders, live, slots) = w.census();
        assert_eq!((bodies, colliders, live), (1, 1, 1), "reload {i} stacked a collider");
        // TWO handle slots, not one: the new collider is built BEFORE the old
        // one is dropped.
        assert_eq!(slots, 2, "reload {i} grew the handle store to {slots}");
    }
    // The surviving collider is the CURRENT terrain, not the first one.
    assert_eq!(w.pos(handle)[1], 199.0);
}

#[test]
fn re_registering_after_a_world_reset_removes_nothing_else() {
    let mut w = World::init(None);
    let (b, c) = w.place(0.0, 0.0, 0.0, 1.0);
    let (stale, _) = replace_terrain(&mut w.registry, -1, b, c);
    assert!(stale >= 0);

    let mut w = World::init(Some(w));
    // This body takes the slot the old terrain collider had.
    let bystander = w.add(9.0, 9.0, 9.0);
    let (b, c) = w.place(0.0, 0.0, 0.0, 1.0);
    let (terrain, dropped) = replace_terrain(&mut w.registry, stale, b, c);
    assert!(dropped.is_none());
    assert!(terrain >= 0);
    assert_ne!(terrain, stale);
    assert_eq!(
        w.registry.alive(bystander),
        1,
        "the stale terrain handle removed an unrelated body"
    );
    assert_eq!(w.pos(bystander)[0], 9.0);
    assert_eq!(w.census(), (2, 2, 2, 2));
}

/// A handle of a thrown-away world is refused however long the worlds after it go on,
/// and is never handed out again.
#[test]
fn an_old_handle_never_names_a_body_again() {
    let mut b = Bodies::init(None);
    let kept = b.push_body((1, 1), (1, 1), GROUP_CHARACTER, Some((0, 0)));
    let own = b.push_body((2, 1), (2, 1), GROUP_WORLD, None);
    assert!(b.remove(own).is_some());
    b = Bodies::init(Some(b));
    for round in 0..20u32 {
        let h = b.push_body((round, 9), (round, 9), GROUP_CHARACTER, Some((0, 0)));
        b.set_grounded(h, true);
        b.character_solid(h, 1);
        b.character_blocking(h, 0);
        assert!(h != kept && h != own);
        for old in [kept, own] {
            assert_eq!(b.alive(old), 0);
            assert!(matches!(b.body_of(old), Lookup::Outlived), "round {round}");
        }
        if round % 2 == 0 {
            assert!(b.remove(h).is_some());
            assert!(matches!(b.body_of(h), Lookup::Gone));
        }
        if round == 10 {
            b = Bodies::init(Some(b));
            assert_eq!(b.census().0, 0);
        }
    }
}

/// The marks put on a body leave every handle and the counts as they were.
#[test]
fn marking_a_body_moves_no_handle() {
    let mut b = Bodies::init(None);
    let h = b.push_body((1, 1), (1, 1), GROUP_CHARACTER, Some((0, 0)));
    let before = b.census();
    b.set_grounded(h, true);
    b.character_solid(h, 1);
    b.character_blocking(h, 0);
    b.set_grounded(h + 1, true);
    assert_eq!(b.census(), before);
    assert_eq!(b.grounded(h), 1);
    let (t, gone) = replace_terrain(&mut b, -1, (3, 1), (3, 1));
    assert!(gone.is_none());
    assert_eq!(b.census(), (2, 2));
    let (u, gone) = replace_terrain(&mut b, t, (4, 1), (4, 1));
    assert!(gone.is_some());
    assert_eq!(b.census(), (2, 3));
    assert!(b.alive(u) == 1 && b.alive(t) == 0);
}
