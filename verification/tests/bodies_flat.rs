//! Handles of 2D bodies, held against a real solver.
use aurora::bodies::Bodies2;
use aurora::slot::Key;
use rapier2d::na::{Point2, Vector2};
use rapier2d::prelude::{
    CCDSolver, ColliderBuilder, ColliderSet, DefaultBroadPhase, ImpulseJointSet,
    IntegrationParameters, IslandManager, MultibodyJointSet, NarrowPhase, PhysicsPipeline,
    QueryFilter, QueryPipeline, Ray, RigidBody, RigidBodyBuilder, RigidBodyHandle, RigidBodySet,
};

struct World {
    gravity: Vector2<f32>,
    params: IntegrationParameters,
    pipeline: PhysicsPipeline,
    islands: IslandManager,
    broad: DefaultBroadPhase,
    narrow: NarrowPhase,
    bodies: RigidBodySet,
    colliders: ColliderSet,
    impulse: ImpulseJointSet,
    multibody: MultibodyJointSet,
    ccd: CCDSolver,
    query: QueryPipeline,
    registry: Bodies2,
}

impl World {
    fn init(prev: Option<World>, gx: f32, gy: f32) -> World {
        World {
            gravity: Vector2::new(gx, gy),
            params: IntegrationParameters::default(),
            pipeline: PhysicsPipeline::new(),
            islands: IslandManager::new(),
            broad: DefaultBroadPhase::new(),
            narrow: NarrowPhase::new(),
            bodies: RigidBodySet::new(),
            colliders: ColliderSet::new(),
            impulse: ImpulseJointSet::new(),
            multibody: MultibodyJointSet::new(),
            ccd: CCDSolver::new(),
            query: QueryPipeline::new(),
            registry: Bodies2::init(prev.map(|p| p.registry)),
        }
    }

    fn add(&mut self, x: f32, y: f32, hw: f32, hh: f32, dynamic: bool) -> i64 {
        let kind = if dynamic { RigidBodyBuilder::dynamic() } else { RigidBodyBuilder::fixed() };
        let h = self.bodies.insert(kind.translation(Vector2::new(x, y)).build());
        let col = ColliderBuilder::cuboid(hw, hh).build();
        self.colliders.insert_with_parent(col, h, &mut self.bodies);
        self.registry.add_body(h.into_raw_parts())
    }

    fn remove(&mut self, h: i64) -> i64 {
        let Some((id, gen)) = self.registry.remove(h) else { return 0 };
        self.bodies.remove(
            RigidBodyHandle::from_raw_parts(id, gen),
            &mut self.islands,
            &mut self.colliders,
            &mut self.impulse,
            &mut self.multibody,
            true,
        );
        1
    }

    fn body(&self, h: i64) -> Option<&RigidBody> {
        let (id, gen) = self.registry.rb_of(h)?;
        self.bodies.get(RigidBodyHandle::from_raw_parts(id, gen))
    }

    fn body_mut(&mut self, h: i64) -> Option<&mut RigidBody> {
        let (id, gen) = self.registry.rb_of(h)?;
        self.bodies.get_mut(RigidBodyHandle::from_raw_parts(id, gen))
    }

    fn pos(&self, h: i64) -> (f32, f32) {
        self.body(h).map(|b| (b.translation()[0], b.translation()[1])).unwrap_or((0.0, 0.0))
    }

    fn vel(&self, h: i64) -> (f32, f32) {
        self.body(h).map(|b| (b.linvel()[0], b.linvel()[1])).unwrap_or((0.0, 0.0))
    }

    fn step(&mut self, dt: f32) {
        self.params.dt = dt;
        self.pipeline.step(
            &self.gravity,
            &self.params,
            &mut self.islands,
            &mut self.broad,
            &mut self.narrow,
            &mut self.bodies,
            &mut self.colliders,
            &mut self.impulse,
            &mut self.multibody,
            &mut self.ccd,
            Some(&mut self.query),
            &(),
            &(),
        );
    }

    fn raycast(&self, x: f32, y: f32, dx: f32, dy: f32, max: f32) -> f32 {
        let ray = Ray::new(Point2::new(x, y), Vector2::new(dx, dy));
        let all = QueryFilter::default();
        match self.query.cast_ray(&self.bodies, &self.colliders, &ray, max, true, all) {
            Some((_, toi)) => toi,
            None => -1.0,
        }
    }

    fn census(&self) -> (usize, usize, usize, usize) {
        let (live, slots) = self.registry.census();
        (self.bodies.len(), self.colliders.len(), live, slots)
    }
}

#[test]
fn lib_create_and_destroy_cycles_leave_the_world_bounded() {
    let mut w = World::init(None, 0.0, 900.0);
    w.add(50.0, 200.0, 60.0, 10.0, false);
    let start = w.census();
    assert_eq!(start, (1, 1, 1, 1), "just the floor");

    for i in 0..500 {
        let bullet = w.add(10.0, 10.0, 2.0, 2.0, true);
        w.body_mut(bullet).unwrap().set_linvel(Vector2::new(100.0, 0.0), true);
        w.step(0.016);
        assert_eq!(w.remove(bullet), 1, "cycle {i}: not removed");
    }

    let end = w.census();
    assert_eq!(end.0, start.0, "rigid bodies grew to {}", end.0);
    assert_eq!(end.1, start.1, "colliders grew to {}", end.1);
    assert_eq!(end.2, start.2, "live handles grew to {}", end.2);
    assert_eq!(end.3, 2, "handle slots grew to {}", end.3);
}

#[test]
fn lib_removing_a_body_takes_its_collider_down_with_it() {
    let mut w = World::init(None, 0.0, 0.0);
    let wall = w.add(0.0, 0.0, 5.0, 5.0, false);
    w.step(0.016);
    assert_eq!(w.census(), (1, 1, 1, 1));
    assert!(w.raycast(-50.0, 0.0, 1.0, 0.0, 100.0) > 0.0);

    assert_eq!(w.remove(wall), 1);
    assert_eq!(w.census(), (0, 0, 0, 1), "an orphaned collider was left");
    assert_eq!(
        w.raycast(-50.0, 0.0, 1.0, 0.0, 100.0),
        -1.0,
        "a removed body still answered a raycast"
    );
}

/// The old handle must be refused, not aliased onto whatever takes its slot.
#[test]
fn lib_a_removed_handle_is_refused_by_every_accessor_that_takes_one() {
    let mut w = World::init(None, 0.0, 0.0);
    let dead = w.add(1.0, 2.0, 1.0, 1.0, true);
    assert_eq!(w.remove(dead), 1);
    let live = w.add(30.0, 40.0, 1.0, 1.0, true);
    assert_eq!(
        Key::from_i64(dead).unwrap().slot(),
        Key::from_i64(live).unwrap().slot(),
        "the freed slot must be reused for this test to mean anything"
    );
    assert_ne!(dead, live);
    w.step(0.016);

    assert_eq!(w.registry.alive(dead), 0);
    assert_eq!(w.registry.alive(live), 1);
    assert_eq!(w.pos(dead), (0.0, 0.0), "a dead handle read a live body");
    assert_eq!(w.vel(dead), (0.0, 0.0));
    assert_eq!(w.pos(live), (30.0, 40.0));

    assert!(w.body_mut(dead).is_none(), "a write through a dead handle would reach a body");
    assert_eq!(w.remove(dead), 0, "double free must report nothing");
    assert_eq!(w.remove(-1), 0);
    assert_eq!(w.remove(0), 0);
    assert_eq!(w.registry.alive(live), 1, "the removal hit the wrong body");
}

#[test]
fn lib_a_handle_from_the_previous_world_is_refused() {
    let mut w = World::init(None, 0.0, 0.0);
    let old = w.add(1.0, 2.0, 1.0, 1.0, false);
    let mut w = World::init(Some(w), 0.0, 0.0);
    assert_eq!(w.registry.alive(old), 0, "a handle outlived its world");
    let new = w.add(60.0, 70.0, 1.0, 1.0, false);
    assert_ne!(old, new, "the new world reissued the old world's handle");
    assert_eq!(w.pos(old).0, 0.0, "the old handle read a new body");
    assert_eq!(w.pos(new).0, 60.0);
    assert_eq!(w.remove(old), 0);
    assert_eq!(w.registry.alive(new), 1);
}

#[test]
fn lib_resetting_the_world_in_a_loop_is_bounded() {
    let mut w = None;
    for _ in 0..200 {
        let mut next = World::init(w.take(), 0.0, 900.0);
        next.add(0.0, 0.0, 5.0, 5.0, false);
        next.add(0.0, 50.0, 2.0, 2.0, true);
        next.step(0.016);
        w = Some(next);
    }
    assert_eq!(w.unwrap().census(), (2, 2, 2, 2), "a world reset grew the store");
}

/// Bodies are counted as they come and go.
#[test]
fn flat_bodies_are_counted() {
    let mut b = Bodies2::init(None);
    assert_eq!(b.census(), (0, 0));
    let h = b.add_body((1, 1));
    let g = b.add_body((2, 1));
    assert_eq!(b.census(), (2, 2));
    assert_eq!(b.remove(h), Some((1, 1)));
    assert_eq!(b.remove(h), None);
    assert_eq!(b.census(), (1, 2));
    b = Bodies2::init(Some(b));
    assert_eq!(b.census(), (0, 2));
    for _ in 0..5 {
        let n = b.add_body((3, 1));
        assert!(n != h && n != g);
        assert_eq!((b.alive(h), b.alive(g)), (0, 0));
    }
    assert_eq!(b.census(), (5, 5));
}
