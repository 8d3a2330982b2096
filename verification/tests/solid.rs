//! Characters, queries and teleports in a real solver, driven by what the library
//! decides.
use aurora::bodies::{
    separate_characters, Bodies, Character, Give, GROUP_CHARACTER, GROUP_WORLD,
};
use rapier3d::control::{CharacterAutostep, CharacterLength, KinematicCharacterController};
use rapier3d::na::{Isometry3, Point3, Vector3};
use rapier3d::prelude::{
    Ball, CCDSolver, Collider, ColliderBuilder, ColliderHandle, ColliderSet, DefaultBroadPhase,
    Group, ImpulseJointSet, IntegrationParameters, InteractionGroups, IslandManager,
    MultibodyJointSet, NarrowPhase, PhysicsPipeline, QueryFilter, QueryPipeline, Ray, RigidBody,
    RigidBodyBuilder, RigidBodyHandle, RigidBodySet,
};

struct World {
    gravity: Vector3<f32>,
    params: IntegrationParameters,
    pipeline: PhysicsPipeline,
    islands: IslandManager,
    broad: DefaultBroadPhase,
    narrow: NarrowPhase,
    bodies: RigidBodySet,
    colliders: ColliderSet,
    impulse: ImpulseJointSet,
    multibody: MultibodyJointSet,
    ccd: CCDSolver,
    query: QueryPipeline,
    controller: KinematicCharacterController,
    hit_point: [f64; 3],
    hit_normal: [f64; 3],
    registry: Bodies,
}

fn v(x: f64, y: f64, z: f64) -> Vector3<f32> {
    Vector3::new(x as f32, y as f32, z as f32)
}

fn body_handle(raw: (u32, u32)) -> RigidBodyHandle {
    RigidBodyHandle::from_raw_parts(raw.0, raw.1)
}

fn collider_handle(raw: (u32, u32)) -> ColliderHandle {
    ColliderHandle::from_raw_parts(raw.0, raw.1)
}

/// Whether two upright capsules stand inside each other.
fn overlapping(a: (Vector3<f32>, f32, f32), b: (Vector3<f32>, f32, f32)) -> bool {
    let ((pa, hha, ra), (pb, hhb, rb)) = (a, b);
    let (dx, dz) = (pa.x - pb.x, pa.z - pb.z);
    let want = ra + rb;
    let above = pa.y - hha - ra >= pb.y + hhb + rb || pb.y - hhb - rb >= pa.y + hha + ra;
    dx * dx + dz * dz < want * want && !above
}

impl World {
    fn init(gx: f64, gy: f64, gz: f64) -> World {
        World {
            gravity: v(gx, gy, gz),
            params: IntegrationParameters::default(),
            pipeline: PhysicsPipeline::new(),
            islands: IslandManager::new(),
            broad: DefaultBroadPhase::new(),
            narrow: NarrowPhase::new(),
            bodies: RigidBodySet::new(),
            colliders: ColliderSet::new(),
            impulse: ImpulseJointSet::new(),
            multibody: MultibodyJointSet::new(),
            ccd: CCDSolver::new(),
            query: QueryPipeline::new(),
            controller: KinematicCharacterController {
                up: Vector3::y_axis(),
                offset: CharacterLength::Absolute(0.02),
                slide: true,
                snap_to_ground: Some(CharacterLength::Absolute(0.3)),
                autostep: Some(CharacterAutostep {
                    max_height: CharacterLength::Absolute(0.55),
                    min_width: CharacterLength::Absolute(0.2),
                    include_dynamic_bodies: false,
                }),
                ..Default::default()
            },
            hit_point: [0.0; 3],
            hit_normal: [0.0; 3],
            registry: Bodies::init(None),
        }
    }

    fn push(
        &mut self,
        rb: RigidBody,
        col: Collider,
        members: u32,
        capsule: Option<(u32, u32)>,
    ) -> i64 {
        let body = self.bodies.insert(rb);
        let col = self.colliders.insert_with_parent(col, body, &mut self.bodies);
        let (b, c) = (body.into_raw_parts(), col.into_raw_parts());
        let h = self.registry.push_body(b, c, members, capsule);
        self.colliders.get_mut(col).unwrap().user_data = h as u128;
        h
    }

    fn add_box(&mut self, at: [f64; 3], half: [f64; 3]) -> i64 {
        let rb = RigidBodyBuilder::fixed().translation(v(at[0], at[1], at[2])).build();
        let half = half.map(|h| h as f32);
        let col = ColliderBuilder::cuboid(half[0], half[1], half[2]).build();
        self.push(rb, col, GROUP_WORLD, None)
    }

    fn add_sphere(&mut self, at: [f64; 3], radius: f64) -> i64 {
        let rb = RigidBodyBuilder::fixed().translation(v(at[0], at[1], at[2])).build();
        let col = ColliderBuilder::ball(radius as f32).build();
        self.push(rb, col, GROUP_WORLD, None)
    }

    fn add_character(&mut self, x: f64, y: f64, z: f64, hh: f64, r: f64) -> i64 {
        let (hh, r) = (hh as f32, r as f32);
        let rb = RigidBodyBuilder::kinematic_position_based().translation(v(x, y, z)).build();
        let col = ColliderBuilder::capsule_y(hh, r)
            .collision_groups(InteractionGroups::new(Group::GROUP_2, Group::ALL))
            .build();
        self.push(rb, col, GROUP_CHARACTER, Some((hh.to_bits(), r.to_bits())))
    }

    fn character_blocking(&mut self, h: i64, on: i64) {
        if let Some((col, members)) = self.registry.character_blocking(h, on) {
            let members = Group::from_bits_truncate(members);
            let c = self.colliders.get_mut(collider_handle(col)).unwrap();
            c.set_collision_groups(InteractionGroups::new(members, Group::ALL));
        }
    }

    fn sync(&mut self) {
        if self.registry.sync_queries() {
            self.query.update(&self.colliders);
        }
    }

    fn pos(&self, h: i64) -> [f64; 3] {
        let body = self.registry.rb_of(h).map(body_handle).and_then(|b| self.bodies.get(b));
        let t = *body.unwrap().translation();
        [t.x as f64, t.y as f64, t.z as f64]
    }

    fn set_pos(&mut self, h: i64, x: f64, y: f64, z: f64) {
        let body = body_handle(self.registry.rb_of(h).unwrap());
        let col = collider_handle(self.registry.col_of(h).unwrap());
        self.bodies.get_mut(body).unwrap().set_translation(v(x, y, z), true);
        let parent = *self.bodies.get(body).unwrap().position();
        let c = self.colliders.get_mut(col).unwrap();
        let wrt = c.position_wrt_parent().copied().unwrap_or_else(Isometry3::identity);
        c.set_position(parent * wrt);
        self.registry.touch();
    }

    fn stance(&self, c: &Character) -> Option<(Vector3<f32>, f32, f32)> {
        let b = self.registry.registry.get(c.key)?;
        let (hh, r) = b.capsule?;
        let at = *self.bodies.get(body_handle(b.body))?.translation();
        Some((at, f32::from_bits(hh), f32::from_bits(r)))
    }

    fn place(&mut self, c: &Character, t: Vector3<f32>) {
        let raw = self.registry.registry.get(c.key).unwrap().body;
        let rb = self.bodies.get_mut(body_handle(raw)).unwrap();
        rb.set_next_kinematic_translation(t);
        rb.set_translation(t, true);
    }

    fn separate(&mut self) -> i64 {
        let chars = self.registry.characters();
        let n = chars.len();
        let stances: Vec<_> = chars.iter().map(|c| self.stance(c).unwrap()).collect();
        let overlap = (0..n * n).map(|p| overlapping(stances[p / n], stances[p % n])).collect();
        let pushes = separate_characters(&chars, &overlap);
        for p in &pushes {
            let ((pa, _, ra), (pb, _, rb)) = (stances[p.i], stances[p.j]);
            let (dx, dz) = (pa.x - pb.x, pa.z - pb.z);
            let d = (dx * dx + dz * dz).sqrt();
            let (ux, uz) = if d > 1.0e-4 { (dx / d, dz / d) } else { (1.0, 0.0) };
            let push = ra + rb - d;
            let (fa, fb) = match p.give {
                Give::Both => (0.5, 0.5),
                Give::First => (1.0, 0.0),
                Give::Second => (0.0, 1.0),
            };
            if fa > 0.0 {
                let t = Vector3::new(pa.x + ux * push * fa, pa.y, pa.z + uz * push * fa);
                self.place(&chars[p.i], t);
            }
            if fb > 0.0 {
                let t = Vector3::new(pb.x - ux * push * fb, pb.y, pb.z - uz * push * fb);
                self.place(&chars[p.j], t);
            }
        }
        self.registry.touch();
        pushes.len() as i64
    }

    fn step(&mut self, dt: f64) {
        self.params.dt = dt as f32;
        self.pipeline.step(
            &self.gravity,
            &self.params,
            &mut self.islands,
            &mut self.broad,
            &mut self.narrow,
            &mut self.bodies,
            &mut self.colliders,
            &mut self.impulse,
            &mut self.multibody,
            &mut self.ccd,
            Some(&mut self.query),
            &(),
            &(),
        );
        self.registry.touch();
        self.sync();
        self.separate();
    }

    fn move_character(&mut self, h: i64, dx: f64, dy: f64, dz: f64, dt: f64) {
        let body = body_handle(self.registry.rb_of(h).unwrap());
        let col = collider_handle(self.registry.col_of(h).unwrap());
        self.sync();
        let at = *self.bodies.get(body).unwrap().translation();
        let collider = self.colliders.get(col).unwrap();
        let mut pos = *collider.position();
        pos.translation.vector = at;
        let mask = Group::from_bits_truncate(self.registry.move_mask(h));
        let filter = QueryFilter::default()
            .exclude_collider(col)
            .groups(InteractionGroups::new(Group::GROUP_2, mask));
        let moved = self.controller.move_shape(
            dt as f32,
            &self.bodies,
            &self.colliders,
            &self.query,
            collider.shape(),
            &pos,
            v(dx, dy, dz),
            filter,
            |_| {},
        );
        self.registry.set_grounded(h, moved.grounded);
        let b = self.bodies.get_mut(body).unwrap();
        b.set_next_kinematic_translation(at + moved.translation);
        b.set_translation(at + moved.translation, false);
    }

    fn raw_of(&self, ch: ColliderHandle) -> i64 {
        self.colliders.get(ch).map(|c| c.user_data as i64).unwrap_or(-1)
    }

    fn raycast(&mut self, at: [f64; 3], dir: [f64; 3], max: f64) -> f64 {
        self.sync();
        let from = Point3::from(v(at[0], at[1], at[2]));
        let ray = Ray::new(from, v(dir[0], dir[1], dir[2]));
        let all = QueryFilter::default();
        let hit = self.query.cast_ray(&self.bodies, &self.colliders, &ray, max as f32, true, all);
        hit.map(|(_, toi)| toi as f64).unwrap_or(-1.0)
    }

    /// The body a ray meets; `world` keeps to world geometry.
    fn cast(&mut self, but: i64, at: [f64; 3], dir: [f64; 3], max: f64, world: bool) -> i64 {
        self.sync();
        let mut filter = QueryFilter::default();
        if world {
            filter = filter.groups(InteractionGroups::new(Group::GROUP_1, Group::GROUP_1));
        }
        if let Some(c) = self.registry.col_of(but) {
            filter = filter.exclude_collider(collider_handle(c));
        }
        let from = Point3::from(v(at[0], at[1], at[2]));
        let ray = Ray::new(from, v(dir[0], dir[1], dir[2]));
        let (bodies, cols) = (&self.bodies, &self.colliders);
        let hit = self.query.cast_ray_and_get_normal(bodies, cols, &ray, max as f32, true, filter);
        let raw = hit.map(|(ch, inter)| {
            let pt = ray.point_at(inter.time_of_impact);
            self.hit_point = [pt.x as f64, pt.y as f64, pt.z as f64];
            let n = inter.normal;
            self.hit_normal = [n.x as f64, n.y as f64, n.z as f64];
            self.raw_of(ch)
        });
        self.registry.record_hit(raw)
    }

    fn overlap(&mut self, at: [f64; 3], radius: f64, filter: QueryFilter) -> i64 {
        self.sync();
        let shape = Ball::new(radius as f32);
        let pos = Isometry3::translation(at[0] as f32, at[1] as f32, at[2] as f32);
        let (bodies, cols) = (&self.bodies, &self.colliders);
        match self.query.intersection_with_shape(bodies, cols, &pos, &shape, filter) {
            Some(ch) => self.registry.body_handle_of(self.raw_of(ch)),
            None => -1,
        }
    }

    fn overlap_sphere(&mut self, x: f64, y: f64, z: f64, radius: f64) -> i64 {
        self.overlap([x, y, z], radius, QueryFilter::default())
    }

    fn overlap_world(&mut self, x: f64, y: f64, z: f64, radius: f64) -> i64 {
        let world = InteractionGroups::new(Group::ALL, Group::GROUP_1);
        self.overlap([x, y, z], radius, QueryFilter::default().groups(world))
    }

    fn gap(&self, a: i64, b: i64) -> f64 {
        let (p, q) = (self.pos(a), self.pos(b));
        ((p[0] - q[0]).powi(2) + (p[2] - q[2]).powi(2)).sqrt()
    }
}

/// Dividing a walk into smaller steps does not slow it down.
#[test]
fn a_character_arrives_at_any_timestep() {
    let want = 1.12_f64;
    for rate in [60.0_f64, 120.0, 240.0, 600.0, 2400.0] {
        let dt = 1.0 / rate;
        let steps = (0.8 * rate).round() as i64;
        let per = want / (steps as f64);
        let mut w = World::init(0.0, -22.0, 0.0);
        // A wide flat floor with its top at y = 0, and nothing else at all.
        w.add_box([0.0, -1.0, 0.0], [100.0, 1.0, 100.0]);
        let (half, radius) = (0.55_f64, 0.35_f64);
        let actor = w.add_character(0.0, half + radius, 0.0, half, radius);
        // Settle onto the floor first, so the walk is not paying for a fall.
        for _ in 0..(rate as i64 / 2) {
            w.move_character(actor, 0.0, -2.0 * dt, 0.0, dt);
            w.step(dt);
        }
        let z0 = w.pos(actor)[2];
        for _ in 0..steps {
            w.move_character(actor, 0.0, -2.0 * dt, per, dt);
            w.step(dt);
        }
        let got = w.pos(actor)[2] - z0;
        assert!((got - want).abs() < 0.05, "{rate} Hz: travelled {got} of {want}");
        assert_eq!(w.registry.grounded(actor), 1);
    }
}

/// A teleported body is where queries say it is, without a step.
#[test]
fn a_teleported_body_moves_for_queries_too() {
    let mut w = World::init(0.0, 0.0, 0.0);
    let b = w.add_box([0.0; 3], [0.5; 3]);
    w.step(0.016);
    assert_eq!(w.overlap_sphere(0.0, 0.0, 0.0, 0.2), b);

    // No step between the move and the questions: that is the whole point.
    w.set_pos(b, 10.0, 0.0, 0.0);
    assert_eq!(w.pos(b)[0], 10.0, "the body itself did not move");
    assert_eq!(w.overlap_sphere(0.0, 0.0, 0.0, 0.2), -1, "a phantom remained");
    assert_eq!(w.overlap_sphere(10.0, 0.0, 0.0, 0.2), b, "invisible at its new position");
    // And the shape is really there, not just its centre point.
    let hit = w.raycast([4.0, 0.0, 0.0], [1.0, 0.0, 0.0], 20.0);
    assert!((hit - 5.5).abs() < 1e-3, "ray met the teleported box at {hit}, expected 5.5");

    // Repeated moves keep working.
    w.set_pos(b, 0.0, 0.0, 7.0);
    assert_eq!(w.overlap_sphere(10.0, 0.0, 0.0, 0.2), -1);
    assert_eq!(w.overlap_sphere(0.0, 0.0, 7.0, 0.2), b);

    // A step does not undo it either.
    w.step(0.016);
    assert_eq!(w.overlap_sphere(0.0, 0.0, 7.0, 0.2), b);
}

/// A character walks through another character, unless it is solid.
#[test]
fn a_solid_character_is_stopped_by_another_character() {
    let mut w = World::init(0.0, 0.0, 0.0);
    let wall = w.add_character(0.0, 1.0, 0.0, 0.5, 0.4);
    assert!(wall >= 0);
    w.step(0.016);

    // Default: straight through it.
    let ghost = w.add_character(0.0, 1.0, -3.0, 0.5, 0.4);
    w.move_character(ghost, 0.0, 0.0, 6.0, 1.0);
    assert!(w.pos(ghost)[2] > 2.0, "stopped at {}, it should pass", w.pos(ghost)[2]);

    // Solid: stopped short of it.
    let solid = w.add_character(0.0, 1.0, -3.0, 0.5, 0.4);
    w.registry.character_solid(solid, 1);
    w.move_character(solid, 0.0, 0.0, 6.0, 1.0);
    let z = w.pos(solid)[2];
    assert!(z < 0.0, "a solid character reached {z}");
    assert!(z > -3.0, "a solid character did not move at all ({z})");

    // And the flag is not one-way: turn it off and the same body passes.
    w.registry.character_solid(solid, 0);
    w.move_character(solid, 0.0, 0.0, 6.0, 1.0);
    assert!(w.pos(solid)[2] > 2.0, "still solid at {}", w.pos(solid)[2]);
}

/// A character meets a wall that was built since the last step: there is none here.
#[test]
fn a_character_meets_a_wall_built_since_the_last_step() {
    let mut w = World::init(0.0, 0.0, 0.0);
    w.add_box([0.0, 1.0, 0.0], [2.0, 2.0, 0.5]);
    let c = w.add_character(0.0, 1.0, -3.0, 0.5, 0.4);
    w.move_character(c, 0.0, 0.0, 6.0, 1.0);
    let z = w.pos(c)[2];
    assert!(z < 0.0, "character reached {z}: the wall was invisible");
    assert!(z > -3.0, "character did not move at all ({z})");
}

/// A solid character still slides along the world.
#[test]
fn a_solid_character_still_meets_the_world() {
    let mut w = World::init(0.0, 0.0, 0.0);
    w.add_box([0.0, 1.0, 0.0], [2.0, 2.0, 0.5]);
    w.step(0.016);
    let c = w.add_character(0.0, 1.0, -3.0, 0.5, 0.4);
    w.registry.character_solid(c, 1);
    w.move_character(c, 0.0, 0.0, 6.0, 1.0);
    assert!(w.pos(c)[2] < 0.0, "a solid character walked through a wall at {}", w.pos(c)[2]);
}

#[test]
fn raycast_full_reports_body_point_and_normal() {
    let mut w = World::init(0.0, -9.81, 0.0);
    let ground = w.add_box([0.0; 3], [5.0, 1.0, 5.0]); // top at y=1
    w.step(0.016);
    // Ray straight down from above the box.
    let body = w.cast(-1, [0.0, 5.0, 0.0], [0.0, -1.0, 0.0], 20.0, false);
    assert_eq!(body, ground, "should hit the ground box");
    assert_eq!(w.registry.hit_body, ground);
    assert!((w.hit_point[1] - 1.0).abs() < 0.05, "on the top face, got {}", w.hit_point[1]);
    assert!(w.hit_normal[1] > 0.9, "normal should point up, got {}", w.hit_normal[1]);
    assert_eq!(w.cast(-1, [50.0, 5.0, 0.0], [0.0, -1.0, 0.0], 20.0, false), -1);
    assert_eq!(w.registry.hit_body, -1);
}

/// A negative handle to leave out means that nothing is.
#[test]
fn a_negative_exclude_handle_skips_nothing() {
    let mut w = World::init(0.0, -9.81, 0.0);
    let ground = w.add_box([0.0; 3], [20.0, 1.0, 20.0]);
    w.step(0.016);
    let (at, down) = ([0.0, 5.0, 0.0], [0.0, -1.0, 0.0]);
    assert_eq!(w.cast(-1, at, down, 20.0, false), ground, "-1 must not hide the first body");
    assert_eq!(w.cast(-1, at, down, 20.0, true), ground, "nor from a world probe");
    // ...but a real handle still excludes that body.
    assert_eq!(w.cast(ground, at, down, 20.0, false), -1, "without the ground the ray misses");
}

#[test]
fn overlap_sphere_finds_a_body() {
    let mut w = World::init(0.0, 0.0, 0.0);
    let b = w.add_sphere([0.0; 3], 1.0);
    w.step(0.016);
    assert_eq!(w.overlap_sphere(0.5, 0.0, 0.0, 0.5), b, "overlapping sphere found");
    assert_eq!(w.overlap_sphere(20.0, 20.0, 20.0, 0.5), -1, "far query finds nothing");
}

/// `blocking` decides whether others stop at this character. The mover is solid in
/// both cases, so anything that gets through is the blocker's doing.
#[test]
fn a_mover_passes_through_a_non_blocking_character() {
    let run = |blocking: i64| -> f64 {
        let mut w = World::init(0.0, 0.0, 0.0);
        // Radius 0.5 each, so contact happens around x = 1.0.
        let blocker = w.add_character(2.0, 0.0, 0.0, 0.5, 0.5);
        w.character_blocking(blocker, blocking);
        let mover = w.add_character(0.0, 0.0, 0.0, 0.5, 0.5);
        w.registry.character_solid(mover, 1);
        for _ in 0..40 {
            w.move_character(mover, 0.1, 0.0, 0.0, 1.0);
        }
        w.pos(mover)[0]
    };
    let through = run(0);
    let stopped = run(1);
    assert!(through > 2.5, "should pass straight through, but stopped at x={through}");
    assert!(stopped < 1.5, "should be stopped, but reached x={stopped}");
}

/// A ghost is still findable. Only the character controller skips it.
#[test]
fn a_ghost_character_is_still_found_by_an_overlap() {
    let mut w = World::init(0.0, 0.0, 0.0);
    let ghost = w.add_character(5.0, 0.0, 0.0, 0.5, 0.5);
    w.character_blocking(ghost, 0);
    assert_eq!(w.overlap_sphere(5.0, 0.0, 0.0, 0.4), ghost, "still findable by a query");
    // And it is NOT world geometry, so a camera looking for room ignores it.
    assert_eq!(w.overlap_world(5.0, 0.0, 0.0, 0.4), -1, "a character is not a wall");
}

/// Two characters standing inside each other come apart, and the solid one gives way.
#[test]
fn characters_do_not_stand_inside_each_other() {
    let mut w = World::init(0.0, -22.0, 0.0);
    // A floor, or gravity walks them out of the test.
    w.add_box([0.0, -0.5, 0.0], [60.0, 0.5, 60.0]);
    let player = w.add_character(0.0, 1.0, 0.0, 0.55, 0.35);
    let creature = w.add_character(0.0, 1.0, 0.0, 0.9, 0.6);
    w.registry.character_solid(player, 1);
    assert_eq!(w.registry.character_count(), 2);

    let want = 0.35 + 0.6;
    assert!(w.gap(player, creature) < 0.01, "they start on top of each other");
    w.step(1.0 / 60.0);
    let gap1 = w.gap(player, creature);
    assert!(gap1 >= want - 0.001, "one step left them {gap1}m apart, wanted {want}m");

    // The creature did NOT move: it is not solid, so it does not give way.
    let at = w.pos(creature);
    assert!(at[0].abs() < 1e-4 && at[2].abs() < 1e-4, "a non-solid character was displaced");

    // And it stays apart.
    for _ in 0..30 {
        w.step(1.0 / 60.0);
    }
    let gap2 = w.gap(player, creature);
    assert!(gap2 >= want - 0.001, "thirty steps later {gap2}m apart, wanted {want}m");
}

/// Neither solid: they are meant to pass through each other.
#[test]
fn two_ghosts_are_left_alone() {
    let mut w = World::init(0.0, -22.0, 0.0);
    w.add_box([0.0, -0.5, 0.0], [60.0, 0.5, 60.0]);
    let a = w.add_character(0.0, 1.0, 0.0, 0.55, 0.35);
    let b = w.add_character(0.0, 1.0, 0.0, 0.55, 0.35);
    w.step(1.0 / 60.0);
    assert!(w.gap(a, b) < 0.01, "neither gives way");
}
