//! Hosts and clients driven against each other in memory: every datagram one side
//! hands back is delivered to the other.
use aurora::host::ServerReply;
use aurora::session::{Input, Peer, Session, State, BOT_ID_BASE};
use aurora::wire::{Player, ShotFx, INPUT_MAX, META_LEN, STATE_MAX, TAG_FX};
use rapier3d::control::{CharacterAutostep, CharacterLength, KinematicCharacterController};
use rapier3d::na::{Isometry3, Point3, Vector3};
use rapier3d::prelude::{
    Capsule, ColliderBuilder, ColliderSet, QueryFilter, QueryPipeline, Ray, RigidBodySet,
};
use std::cell::RefCell;
use std::collections::{BTreeSet, HashMap, VecDeque};
use std::rc::Rc;

type Sim = Rc<dyn Fn(State, Input) -> State>;

fn f(bits: u32) -> f32 {
    f32::from_bits(bits)
}

fn f3(v: [u32; 3]) -> [f32; 3] {
    v.map(f)
}

fn b3(v: [f32; 3]) -> [u32; 3] {
    v.map(f32::to_bits)
}

/// Where something was at a tick, and how big: radius and half height.
struct Past {
    tick: u64,
    id: u64,
    pos: [f32; 3],
    size: [f32; 2],
}

/// A session with everything around it that is float arithmetic.
struct Node {
    s: Session,
    addr: Peer,
    sim: Sim,
    interest: f32,
    hit_radius: f32,
    past: Vec<Past>,
    samples: HashMap<u32, Vec<(f32, [f32; 3])>>,
    inbox: VecDeque<(Peer, Vec<u8>)>,
    outbox: Vec<(Peer, Vec<u8>)>,
}

fn peer(port: u16) -> Peer {
    Peer { v6: false, ip: 0x7f00_0001, port, flow: 0, scope: 0 }
}

fn node(s: Session, port: u16) -> Node {
    Node {
        s,
        addr: peer(port),
        sim: Rc::new(|s: State, _: Input| s),
        interest: 80.0,
        hit_radius: 1.0,
        past: Vec::new(),
        samples: HashMap::new(),
        inbox: VecDeque::new(),
        outbox: Vec::new(),
    }
}

fn host() -> Node {
    node(Session::host(), 1)
}

fn join(port: u16) -> Node {
    node(Session::join(peer(1)), port)
}

/// Carry what each side has for the other.
fn deliver(a: &mut Node, b: &mut Node) {
    for (from, to) in [(true, false), (false, true)] {
        let (x, y) = if from && !to { (&mut *a, &mut *b) } else { (&mut *b, &mut *a) };
        let mut rest = Vec::new();
        for (addr, pkt) in x.outbox.drain(..) {
            if addr == y.addr {
                y.inbox.push_back((x.addr, pkt));
            } else {
                rest.push((addr, pkt));
            }
        }
        x.outbox = rest;
    }
}

fn differs(a: &[u32], b: &[u32]) -> bool {
    a.iter().zip(b).any(|(x, y)| (f(*x) - f(*y)).abs() > 1e-3)
}

impl Node {
    fn send_input(&mut self, input: &[f32]) {
        let words: Vec<u32> = input.iter().map(|v| v.to_bits()).collect();
        let sim = self.sim.clone();
        let (_, pkt) = self.s.send_input(&words, |s: State, i: Input| sim(s, i));
        self.to_host(pkt);
    }

    fn to_host(&mut self, pkt: Option<Vec<u8>>) {
        if let (Some(p), Some(addr)) = (pkt, self.s.server_addr) {
            self.outbox.push((addr, p));
        }
    }

    /// The nearest thing but `but` that a ray met at a tick.
    fn raycast(&self, o: [f32; 3], d: [f32; 3], tick: u64, but: u64) -> Option<(i64, [f32; 3])> {
        let mut best: Option<(f32, u64)> = None;
        for p in self.past.iter().filter(|p| p.tick == tick && p.id != but) {
            // The nearest height of an upright capsule to a level ray.
            let y = o[1].clamp(p.pos[1] - p.size[1], p.pos[1] + p.size[1]);
            let oc = [o[0] - p.pos[0], o[1] - y, o[2] - p.pos[2]];
            let b = oc[0] * d[0] + oc[1] * d[1] + oc[2] * d[2];
            let c = oc[0] * oc[0] + oc[1] * oc[1] + oc[2] * oc[2] - p.size[0] * p.size[0];
            let disc = b * b - c;
            if disc < 0.0 {
                continue;
            }
            let t = -b - disc.sqrt();
            if t >= 0.0 && best.map(|(u, _)| t < u).unwrap_or(true) {
                best = Some((t, p.id));
            }
        }
        best.map(|(t, id)| (id as i64, [o[0] + d[0] * t, o[1] + d[1] * t, o[2] + d[2] * t]))
    }

    fn fire(&mut self, o: [f32; 3], d: [f32; 3], weapon: u8) {
        let hit = self.raycast(o, d, self.s.server_tick, 0).map(|(id, p)| (id, b3(p)));
        let pkt = self.s.fire(b3(o), b3(d), weapon, hit);
        self.to_host(pkt);
    }

    fn update(&mut self, dt: f32) {
        let sim = self.sim.clone();
        let step = |s: State, i: Input| sim(s, i);
        let spawn = f(self.s.spawn[0]);
        while let Some((from, pkt)) = self.inbox.pop_front() {
            if self.s.is_server() {
                let x = (spawn + self.s.next_id as f32 * 2.0).to_bits();
                match self.s.on_server_packet(&pkt, from, x) {
                    ServerReply::Nothing => {}
                    ServerReply::Send(reply) => self.outbox.push((from, reply)),
                    ServerReply::Fire(q) => {
                        let (o, d) = (f3(q.o), f3(q.d));
                        let hit = self.raycast(o, d, q.tick, q.shooter as u64);
                        let far = [o[0] + d[0] * 120.0, o[1] + d[1] * 120.0, o[2] + d[2] * 120.0];
                        let hit = hit.map(|(id, p)| (id, b3(p)));
                        let reply = self.s.resolve_fire(q, hit, b3(far));
                        self.outbox.push((from, reply));
                    }
                }
            } else {
                for at in self.s.on_client_packet(&pkt, &step) {
                    let list = self.samples.entry(at.id).or_default();
                    if at.fresh {
                        list.clear();
                    }
                    list.push((f(at.tick), f3(at.pos)));
                }
            }
        }
        let tick = (f(self.s.tick) + dt).to_bits();
        if !self.s.is_server() {
            self.s.update_client(tick);
            return;
        }
        let xs = self.s.clients.iter().map(|c| (spawn + c.id as f32 * 2.0).to_bits()).collect();
        for r in self.s.update_server(&step, &xs, tick) {
            let size = r.size.map(|s| s.map(f)).unwrap_or([self.hit_radius, 0.0]);
            self.past.push(Past { tick: self.s.server_tick, id: r.id, pos: f3(r.pos), size });
        }
        self.broadcast();
    }

    fn broadcast(&mut self) {
        let all = self.s.roster();
        let len = self.s.state_len;
        let mut near = Vec::new();
        let mut moved = Vec::new();
        for i in 0..self.s.clients.len() {
            let me = self.s.clients[i].state;
            let far = |p: &Player| {
                let d = [0, 1, 2].map(|k| f(p.s[k]) - f(me.s[k]));
                d[0] * d[0] + d[1] * d[1] + d[2] * d[2] > self.interest * self.interest
            };
            near.push(all.iter().map(|(_, p)| !far(p)).collect());
            let changed = |id: u32, p: &Player| match self.s.last_sent(i, id) {
                Some(q) => differs(&q.s[..len], &p.s[..len]) || differs(&q.meta, &p.meta),
                None => true,
            };
            moved.push(all.iter().map(|(id, p)| changed(*id, p)).collect());
        }
        let objects = self.s.objects.iter().zip(&self.s.last_sent_objects);
        let objects = objects.into_iter().any(|(a, b)| differs(a, b));
        let sent = self.s.broadcast(&near, &moved, objects);
        self.outbox.extend(sent);
    }

    fn flush_shots(&mut self) {
        let sent = self.s.flush_shots();
        self.outbox.extend(sent);
    }

    /// Where a remote is drawn: a tenth of a second behind the newest word of it.
    fn sampled(&self, id: u32) -> Option<[u32; 3]> {
        let list = self.samples.get(&id)?;
        let at = f(self.s.tick) - 0.1;
        let mut before = list.first()?;
        for s in list {
            if s.0 <= at {
                before = s;
            } else if before.0 <= at {
                let k = (at - before.0) / (s.0 - before.0);
                return Some(b3([0, 1, 2].map(|i| before.1[i] + (s.1[i] - before.1[i]) * k)));
            }
        }
        Some(b3(before.1))
    }

    fn px(&self, id: u32) -> f32 {
        f(self.s.px(id, self.sampled(id)))
    }

    fn py(&self, id: u32) -> f32 {
        f(self.s.py(id, self.sampled(id)))
    }

    fn meta(&self, id: u32, slot: usize) -> f32 {
        f(self.s.meta(id, slot))
    }

    fn name(&self, id: u32) -> String {
        (0..self.s.name_len(id)).map(|i| self.s.name_char(id, i as usize) as u8 as char).collect()
    }
}

/// One frame of a host and a client.
fn frame(client: &mut Node, host: &mut Node) {
    let input = [0.0f32; 4];
    client.send_input(&input);
    host.send_input(&input);
    deliver(client, host);
    client.update(0.016);
    host.update(0.016);
    deliver(client, host);
    client.update(0.016);
}

/// Integrate position by an input velocity.
/// State layout: [x,y,z,yaw, vx,vy,vz]. Input: [vx,vz, dt].
fn test_sim(mut s: State, i: Input) -> State {
    let (vx, vz, dt) = (f(i[0]), f(i[1]), f(i[2]));
    s[0] = (f(s[0]) + vx * dt).to_bits();
    s[2] = (f(s[2]) + vz * dt).to_bits();
    s[4] = i[0];
    s[6] = i[1];
    s
}

fn install(n: &mut Node) {
    n.sim = Rc::new(test_sim);
    n.s.set_sim(7, 3);
}

#[test]
fn prediction_reconciles_with_a_registered_sim() {
    let mut server = host();
    install(&mut server);
    let mut client = join(2);
    install(&mut client);
    let dt = 1.0 / 60.0;
    for _ in 0..120 {
        client.send_input(&[3.0, 0.0, dt]); // move +x
        client.update(dt);
        deliver(&mut client, &mut server);
        server.update(dt);
        deliver(&mut client, &mut server);
        client.update(dt);
    }
    let cid = client.s.my_id();
    assert!(cid >= 1);
    let sx = server.px(cid);
    assert!(sx > 1.0, "server moved the client, got {sx}");
    assert!((client.px(cid) - sx).abs() < 0.5, "client {} converges to server {sx}", client.px(cid));
}

#[test]
fn lag_compensated_shot_hits_with_a_sim() {
    let mut server = host();
    install(&mut server);
    let mut a = join(2);
    let mut b = join(3);
    install(&mut a);
    install(&mut b);
    let dt = 1.0 / 60.0;
    for _ in 0..90 {
        server.send_input(&[-4.0, 0.0, dt]); // host moves -x out of the way
        a.send_input(&[0.0, 0.0, dt]);
        b.send_input(&[4.0, 0.0, dt]); // B moves +x
        deliver(&mut a, &mut server);
        deliver(&mut b, &mut server);
        server.update(dt);
        deliver(&mut a, &mut server);
        deliver(&mut b, &mut server);
        a.update(dt);
        b.update(dt);
    }
    let bid = b.s.my_id();
    a.fire([0.0, 0.0, 0.0], [1.0, 0.0, 0.0], 0);
    for _ in 0..10 {
        deliver(&mut a, &mut server);
        server.update(dt);
        deliver(&mut a, &mut server);
        a.update(dt);
    }
    assert_eq!(a.s.hit_player(), bid as i64, "rewound shot should hit B");
}

#[test]
fn interest_culls_distant_players() {
    let mut server = host();
    install(&mut server);
    server.interest = 5.0;
    let mut a = join(2);
    let mut b = join(3);
    install(&mut a);
    install(&mut b);
    let dt = 1.0 / 60.0;
    for _ in 0..150 {
        server.send_input(&[-14.0, 0.0, dt]); // host leaves A's radius too
        a.send_input(&[0.0, 0.0, dt]);
        b.send_input(&[14.0, 0.0, dt]); // B leaves A's interest radius decisively
        deliver(&mut a, &mut server);
        deliver(&mut b, &mut server);
        server.update(dt);
        deliver(&mut a, &mut server);
        deliver(&mut b, &mut server);
        a.update(dt);
        b.update(dt);
    }
    assert_eq!(a.s.player_count(), 1, "A should cull the distant B");
}

#[test]
fn metadata_replicates_host_and_client() {
    let mut host = host();
    let mut client = join(2);
    host.s.set_meta(0, 75.0f32.to_bits()); // host hp = 75
    client.s.set_meta(0, 42.0f32.to_bits()); // client hp = 42
    client.s.set_meta(16, 1.0f32.to_bits()); // client raises its shield-up flag
    host.s.set_name(b"REAPER");
    client.s.set_name(b"NOVA");
    for _ in 0..40 {
        frame(&mut client, &mut host);
    }
    let seen = client.meta(0, 0);
    assert!((seen - 75.0).abs() < 0.01, "client saw host hp = {seen}, expected 75");
    let client_id = client.s.my_id();
    let seen = host.meta(client_id, 0);
    assert!((seen - 42.0).abs() < 0.01, "host saw client hp = {seen}, expected 42");
    // the shield-up flag (slot 16) replicates client -> host like any other meta
    let seen = host.meta(client_id, 16);
    assert!((seen - 1.0).abs() < 0.01, "host saw client shield-up flag = {seen}, expected 1");
    // NAMES replicate both ways too (read char-by-char from the replicated byte field).
    assert_eq!(client.name(0), "REAPER", "client should see the host's name");
    assert_eq!(host.name(client_id), "NOVA", "host should see the client's name");
}

#[test]
fn reconcile_does_not_inflate_position() {
    fn fall_sim(mut s: State, _: Input) -> State {
        s[1] = (f(s[1]) - 1.0).to_bits(); // "gravity": fall one unit per sim step
        s
    }
    let mut host = host();
    let mut client = join(2);
    host.sim = Rc::new(fall_sim);
    client.sim = Rc::new(fall_sim);
    host.s.set_sim(21, 17);
    client.s.set_sim(21, 17);
    let input = [0.0f32; INPUT_MAX];
    for _ in 0..25 {
        client.send_input(&input);
        deliver(&mut client, &mut host);
        host.update(0.016);
        deliver(&mut client, &mut host);
        client.update(0.016);
    }
    let cy = client.py(client.s.my_id());
    assert!(cy < -10.0, "client should have fallen well below 0 after 25 steps, got {cy}");
}

/// A floor with its top at zero, and what a capsule needs to walk on it.
struct Floor {
    bodies: RigidBodySet,
    colliders: ColliderSet,
    query: QueryPipeline,
    controller: KinematicCharacterController,
}

impl Floor {
    fn new() -> Floor {
        let mut colliders = ColliderSet::new();
        let ground = ColliderBuilder::cuboid(100.0, 0.5, 100.0);
        colliders.insert(ground.translation(Vector3::new(0.0, -0.5, 0.0)).build());
        let mut query = QueryPipeline::new();
        query.update(&colliders);
        let controller = KinematicCharacterController {
            up: Vector3::y_axis(),
            offset: CharacterLength::Absolute(0.02),
            slide: true,
            snap_to_ground: Some(CharacterLength::Absolute(0.3)),
            autostep: Some(CharacterAutostep {
                max_height: CharacterLength::Absolute(0.55),
                min_width: CharacterLength::Absolute(0.2),
                include_dynamic_bodies: false,
            }),
            ..Default::default()
        };
        Floor { bodies: RigidBodySet::new(), colliders, query, controller }
    }

    fn below(&self, at: [f32; 3], reach: f32) -> bool {
        let ray = Ray::new(Point3::new(at[0], at[1], at[2]), Vector3::new(0.0, -1.0, 0.0));
        let all = QueryFilter::default();
        self.query.cast_ray(&self.bodies, &self.colliders, &ray, reach, true, all).is_some()
    }

    fn move_by(&self, at: [f32; 3], dy: f32, dt: f32) -> ([f32; 3], bool) {
        let pos = Isometry3::translation(at[0], at[1], at[2]);
        let m = self.controller.move_shape(
            dt,
            &self.bodies,
            &self.colliders,
            &self.query,
            &Capsule::new_y(0.6, 0.3),
            &pos,
            Vector3::new(0.0, dy, 0.0),
            QueryFilter::default(),
            |_| {},
        );
        let t = m.translation;
        ([at[0] + t.x, at[1] + t.y, at[2] + t.z], m.grounded)
    }
}

#[test]
fn reconcile_with_physics_does_not_fly() {
    let floor = Rc::new(RefCell::new(Floor::new()));
    let world = floor.clone();
    let sim: Sim = Rc::new(move |mut s: State, i: Input| {
        let dt = 0.016f32;
        let at = [f(s[0]), f(s[1]), f(s[2])];
        let w = world.borrow();
        let grounded = w.below(at, 1.2);
        let mut vy = f(s[5]);
        let jump = f(i[3]) > 0.5;
        let last_jump = f(s[10]) > 0.5;
        if jump && !last_jump && grounded {
            vy = 8.0;
        }
        s[10] = i[3];
        let g = if vy < 0.0 { 16.0 * 1.6 } else { 16.0 };
        vy -= g * dt;
        let (now, landed) = w.move_by(at, vy * dt, dt);
        for k in 0..3 {
            s[k] = now[k].to_bits();
        }
        if (landed || grounded) && vy < 0.0 {
            vy = 0.0;
        }
        s[5] = vy.to_bits();
        s
    });
    let mut host = host();
    let mut client = join(2);
    host.sim = sim.clone();
    client.sim = sim;
    host.s.set_sim(21, 17);
    client.s.set_sim(21, 17);
    let eight = 8.0f32.to_bits();
    host.s.set_spawn(0, eight, 0); // host grounds quickly
    client.s.set_spawn(20.0f32.to_bits(), eight, 0); // client falls from y=8
    let no_jump = [0.0f32; INPUT_MAX];
    for _ in 0..120 {
        client.send_input(&no_jump);
        deliver(&mut client, &mut host);
        host.update(0.016);
        deliver(&mut client, &mut host);
        client.update(0.016);
    }
    let cy = client.py(client.s.my_id());
    assert!(cy < 1.5 && cy > 0.4, "client should rest on the floor (~0.9), got {cy}");
}

#[test]
fn lobby_full_rejects_extra_client() {
    let mut host = host();
    host.s.set_max_clients(1); // admit exactly ONE client
    let mut c1 = join(2);
    let mut c2 = join(3);
    let input = [0.0f32; 4];
    // Admit c1 first.
    for _ in 0..8 {
        frame(&mut c1, &mut host);
    }
    // Now c2 tries to join - the lobby is full.
    for _ in 0..12 {
        c2.send_input(&input);
        deliver(&mut c2, &mut host);
        c2.update(0.016);
        host.update(0.016);
        deliver(&mut c2, &mut host);
        c2.update(0.016);
    }
    assert!(!c1.s.rejected(), "the first client should be admitted");
    assert!(c2.s.rejected(), "the second client should be rejected (lobby full)");
}

#[test]
fn bots_replicate_as_players() {
    let mut host = host();
    let mut client = join(2);
    let b = |v: f32| v.to_bits();
    for _ in 0..40 {
        // Host writes its bots each frame from its (here, fake) AI.
        host.s.set_bot_count(2);
        host.s.set_bot(0, b(33.0), b(1.0), b(5.0), b(0.5));
        host.s.set_bot_meta(0, 0, b(88.0)); // bot 0 hp
        host.s.set_bot_name(0, b"BOT-A");
        host.s.set_bot(1, b(44.0), b(1.0), b(-5.0), b(1.2));
        host.s.set_bot_meta(1, 0, b(70.0)); // bot 1 hp
        host.s.set_bot_name(1, b"BOT-B");
        frame(&mut client, &mut host);
    }
    // The client sees the two bots as remote players at ids BOT_ID_BASE + i.
    let b0 = BOT_ID_BASE;
    let b1 = BOT_ID_BASE + 1;
    assert!((client.px(b0) - 33.0).abs() < 0.5, "client saw bot0 x = {}", client.px(b0));
    assert!((client.px(b1) - 44.0).abs() < 0.5, "client saw bot1 x = {}", client.px(b1));
    assert!((client.meta(b0, 0) - 88.0).abs() < 0.01, "bot0 hp = {}", client.meta(b0, 0));
    assert!((client.meta(b1, 0) - 70.0).abs() < 0.01, "bot1 hp = {}", client.meta(b1, 0));
    assert_eq!(client.name(b0), "BOT-A", "client should read bot0's name");
    // And the client lists them among its players (self + host + 2 bots).
    let ids: Vec<i64> = (0..client.s.player_count()).map(|i| client.s.player_id_at(i)).collect();
    assert!(ids.contains(&(b0 as i64)) && ids.contains(&(b1 as i64)), "bots in player list: {ids:?}");
}

#[test]
fn host_applies_validated_client_shot() {
    let mut host = host();
    let mut client = join(2);
    let five = 5.0f32.to_bits();
    // Warm up: connect, and record the bot at (5,5,0) across many ticks so lag-comp has it.
    for _ in 0..24 {
        host.s.set_bot_count(1);
        host.s.set_bot(0, five, five, 0, 0);
        host.s.set_bot_meta(0, 0, 100.0f32.to_bits());
        frame(&mut client, &mut host);
    }
    host.s.clear_server_hits();
    // Client fires straight at the bot (weapon 2). Origin y=5 clears the host/client bodies.
    client.fire([0.0, 5.0, 0.0], [1.0, 0.0, 0.0], 2);
    for _ in 0..6 {
        host.s.set_bot_count(1);
        host.s.set_bot(0, five, five, 0, 0);
        deliver(&mut client, &mut host);
        client.update(0.016);
        host.update(0.016);
        deliver(&mut client, &mut host);
        client.update(0.016);
    }
    assert!(host.s.server_hit_count() >= 1, "host queued no validated hit");
    assert_eq!(host.s.server_hit_victim(0), BOT_ID_BASE as i64, "victim should be the bot");
    let cid = client.s.my_id();
    assert_eq!(host.s.server_hit_shooter(0), cid as i64, "shooter should be the client");
    assert_eq!(host.s.server_hit_weapon(0), 2, "weapon should round-trip");
    assert_eq!(f(host.s.server_hit_x(0)), 4.0, "the near side of the bot");
    // The shooter also got its predicted hit echoed back (same bot).
    assert_eq!(client.s.hit_player(), BOT_ID_BASE as i64, "client should confirm its hitmarker");
}

#[test]
fn objects_replicate_to_client() {
    let mut host = host();
    let mut client = join(2);
    let b = |v: f32| v.to_bits();
    for _ in 0..30 {
        host.s.set_object_count(3);
        host.s.set_object(0, b(10.0), b(0.5), b(-4.0));
        host.s.set_object(1, b(11.0), b(0.5), b(-4.0));
        host.s.set_object(2, b(12.0), b(0.5), b(-4.0));
        frame(&mut client, &mut host);
    }
    assert_eq!(client.s.object_count(), 3, "client should see 3 crates");
    let pos = |c: &Node, i: usize, k: usize| f(c.s.object_pos(i, k));
    let rot = |c: &Node, i: usize, k: usize| f(c.s.object_rot(i, k));
    assert!((pos(&client, 1, 0) - 11.0).abs() < 0.01, "crate 1 x = {}", pos(&client, 1, 0));
    // an unrotated crate reports identity (qw = 1) so it renders upright by default
    assert!((rot(&client, 1, 3) - 1.0).abs() < 0.01, "default crate qw = {}", rot(&client, 1, 3));
    // Move + TUMBLE crate 2 (as if shot) and confirm both position and orientation replicate.
    for _ in 0..20 {
        host.s.set_object_count(3);
        host.s.set_object(0, b(10.0), b(0.5), b(-4.0));
        host.s.set_object(1, b(11.0), b(0.5), b(-4.0));
        host.s.set_object(2, b(18.0), b(1.5), b(-2.0));
        host.s.set_object_rot(2, b(0.0), b(0.70710677), b(0.0), b(0.70710677)); // 90deg about Y
        frame(&mut client, &mut host);
    }
    assert!((pos(&client, 2, 0) - 18.0).abs() < 0.01, "moved crate 2 x = {}", pos(&client, 2, 0));
    assert!((pos(&client, 2, 1) - 1.5).abs() < 0.01, "moved crate 2 y = {}", pos(&client, 2, 1));
    assert!((rot(&client, 2, 1) - 0.70710677).abs() < 0.01, "qy = {}", rot(&client, 2, 1));
    assert!((rot(&client, 2, 3) - 0.70710677).abs() < 0.01, "qw = {}", rot(&client, 2, 3));
}

#[test]
fn kill_events_reach_client() {
    let mut host = host();
    let mut client = join(2);
    let input = [0.0f32; 4];
    // Connect.
    for _ in 0..10 {
        frame(&mut client, &mut host);
    }
    let cid = client.s.my_id();
    // Host announces: this client killed bot 0 (net id BOT_ID_BASE).
    host.s.push_kill(cid, BOT_ID_BASE);
    let mut total = 0;
    for _ in 0..6 {
        host.send_input(&input);
        host.update(0.016);
        deliver(&mut client, &mut host);
        client.update(0.016);
        total += client.s.kill_count();
        client.s.clear_kills();
    }
    assert!(total >= 1, "client received no kill event");
    assert_eq!(total, 1, "announced once");
}

#[test]
fn bots_do_not_inflate_player_count() {
    let mut host = host();
    let mut client = join(2);
    host.s.set_bot_count(3); // host runs 3 bots
    for _ in 0..15 {
        frame(&mut client, &mut host);
    }
    assert_eq!(host.s.player_count(), 2, "host should count itself + 1 client, NOT the 3 bots");
}

fn shot(shooter: u32, o: [f32; 3], e: [f32; 3], weapon: u8) -> ShotFx {
    ShotFx { shooter, o: b3(o), e: b3(e), weapon }
}

#[test]
fn shots_reach_client() {
    let mut host = host();
    let mut client = join(2);
    for _ in 0..10 {
        frame(&mut client, &mut host);
    }
    let mut got = 0;
    for _ in 0..6 {
        host.s.push_shot(shot(BOT_ID_BASE, [1.0, 2.0, 3.0], [4.0, 5.0, 6.0], 0));
        host.flush_shots(); // broadcast this frame's shots, then clears the host's list
        deliver(&mut client, &mut host);
        client.update(0.016);
        if client.s.shot_count() > 0 {
            got += 1;
            assert_eq!(client.s.shot_shooter(0), BOT_ID_BASE as i64, "shooter id");
            assert!((f(client.s.shot_field(0, 0)) - 1.0).abs() < 0.01, "origin x");
            assert!((f(client.s.shot_field(0, 5)) - 6.0).abs() < 0.01, "endpoint z");
        }
        client.flush_shots();
    }
    assert!(got >= 1, "client received no shot effect");
    // The HOST reads its own pushed shots (shots_out) so it can render them locally too.
    host.s.push_shot(shot(7, [0.0; 3], [1.0; 3], 0));
    assert_eq!(host.s.shot_count(), 1, "host should see its own queued shot for local render");
    host.flush_shots();
    assert_eq!(host.s.shot_count(), 0, "flush clears the host list");
}

#[test]
fn projectile_intent_queues_on_host() {
    let mut host = host();
    let mut client = join(2);
    for _ in 0..10 {
        frame(&mut client, &mut host);
    }
    host.s.clear_server_projectiles();
    let pkt = client.s.projectile_intent(0, b3([2.0, 1.5, 0.0]), b3([1.0, 0.0, 0.0])); // rocket east
    client.to_host(pkt);
    for _ in 0..6 {
        deliver(&mut client, &mut host);
        client.update(0.016);
        host.update(0.016);
    }
    assert!(host.s.server_projectile_count() >= 1, "host queued no projectile");
    let cid = client.s.my_id();
    assert_eq!(host.s.server_projectile_shooter(0), cid as i64, "shooter id");
    assert_eq!(host.s.server_projectile_kind(0), 0, "kind = rocket");
    assert!((f(host.s.server_projectile_origin(0, 0)) - 2.0).abs() < 0.01, "origin x");
    assert!((f(host.s.server_projectile_vel(0, 0)) - 1.0).abs() < 0.01, "vel x");
}

#[test]
fn host_owns_client_hp() {
    let mut host = host();
    let mut client = join(2);
    client.s.set_meta(0, 100.0f32.to_bits()); // the client THINKS it has 100
    let input = [0.0f32; 4];
    for _ in 0..30 {
        client.send_input(&input);
        host.send_input(&input);
        client.update(0.016);
        // Host overrides this client's hp to 37 AFTER the relay each frame (authoritative).
        let cid = client.s.my_id();
        host.s.set_player_meta(cid, 0, 37.0f32.to_bits());
        deliver(&mut client, &mut host);
        host.update(0.016);
        deliver(&mut client, &mut host);
        client.update(0.016);
    }
    // The client reads its OWN hp as the host's authoritative value, not its self-report.
    let hp = client.meta(client.s.my_id(), 0);
    assert!((hp - 37.0).abs() < 0.01, "client hp = {hp}");
}

#[test]
fn fx_replicate_to_client() {
    let mut host = host();
    let mut client = join(2);
    let b = |v: f32| v.to_bits();
    for _ in 0..20 {
        host.s.set_fx_count(2);
        host.s.set_fx(0, b(4.0), b(0.6), b(-2.0), b(1.0)); // a shield-cell drop
        host.s.set_fx(1, b(9.0), b(1.5), b(0.0), b(3.0)); // a rocket in flight
        frame(&mut client, &mut host);
    }
    assert_eq!(client.s.fx_count(), 2, "client should see 2 fx");
    let fx = |i: usize, k: usize| f(client.s.fx_field(i, k));
    assert!((fx(0, 0) - 4.0).abs() < 0.01, "drop x");
    assert!((fx(0, 3) - 1.0).abs() < 0.01, "drop kind");
    assert!((fx(1, 0) - 9.0).abs() < 0.01, "rocket x");
    assert!((fx(1, 3) - 3.0).abs() < 0.01, "rocket kind");
}

/// A boss nobody predicts and everybody must agree about. Slots: 0 = which attack
/// is out, 1 = how far into it, 2 = health.
#[test]
fn a_boss_the_host_owns_is_seen_by_a_client() {
    let mut host = host();
    let mut client = join(2);
    let b = |v: f32| v.to_bits();
    host.s.set_object_count(1);
    host.s.set_object(0, b(0.0), b(0.0), b(-7.0));
    host.s.set_object_size(0, b(0.6), b(1.0));
    host.s.set_object_state(0, 0, b(-1.0)); // idle
    host.s.set_object_state(0, 1, b(0.0));
    host.s.set_object_state(0, 2, b(1200.0));
    let mut phase = 0.0f32;
    let mut step = |client: &mut Node, host: &mut Node| {
        // The boss winds up WITHOUT moving: the case that broke change
        // detection which only watched the pose.
        host.s.set_object_state(0, 0, b(0.0)); // attack 0 out
        host.s.set_object_state(0, 1, b(phase));
        phase += 1.0;
        frame(client, host);
    };
    for _ in 0..3 {
        step(&mut client, &mut host);
    }
    assert_eq!(client.s.object_count(), 1, "the client to learn the boss exists");
    // Its position crossed intact.
    let z = f(client.s.object_pos(0, 2));
    assert!((z - (-7.0)).abs() < 0.01, "the client should see the boss where the host put it, got z={z}");
    // And so did the state that is NOT its pose - the telegraph.
    for _ in 0..3 {
        step(&mut client, &mut host);
    }
    assert!(f(client.s.object_state(0, 1)) > 2.0, "the boss's windup phase to reach the client");
    assert_eq!(f(client.s.object_state(0, 0)), 0.0, "the client must see which attack is out");
    assert_eq!(f(client.s.object_state(0, 2)), 1200.0, "and its health, untouched");
}

/// A stationary boss's state must arrive FRESH, not merely eventually: how many
/// distinct values arrive is what is counted.
#[test]
fn a_stationary_objects_state_streams_rather_than_waiting_for_keyframes() {
    let mut host = host();
    let mut client = join(2);
    let b = |v: f32| v.to_bits();
    host.s.set_object_count(1);
    // Never moved after this line.
    host.s.set_object(0, b(4.0), b(0.0), b(4.0));
    let mut seen = BTreeSet::new();
    let mut posture = 0.0f32;
    for _ in 0..200 {
        posture += 1.0;
        host.s.set_object_state(0, 3, b(posture));
        frame(&mut client, &mut host);
        seen.insert(client.s.object_state(0, 3));
    }
    assert!(
        seen.len() >= 50,
        "a stationary object's state must stream, not arrive on keyframes: \
         saw only {} distinct values",
        seen.len()
    );
}

/// A tall object is met where it looks, not only near its centre.
#[test]
fn a_tall_object_stops_a_shot_at_its_own_size() {
    let mut host = host();
    let mut client = join(2);
    let b = |v: f32| v.to_bits();
    host.s.set_object_count(2);
    host.s.set_object(0, b(10.0), b(50.0), b(0.0));
    host.s.set_object(1, b(20.0), b(50.0), b(0.0));
    host.s.set_object_size(1, b(0.6), b(2.0));
    for _ in 0..20 {
        frame(&mut client, &mut host);
    }
    // Passes over the first, which has no size of its own, and meets the second.
    client.fire([0.0, 51.5, 0.0], [1.0, 0.0, 0.0], 1);
    deliver(&mut client, &mut host);
    host.update(0.016);
    deliver(&mut client, &mut host);
    client.update(0.016);
    assert_eq!(client.s.hit_player(), 2001);
    assert!((f(client.s.hit_point()[0]) - 19.4).abs() < 0.01);
}

/// A client is told apart by its address, and a silent one is dropped.
#[test]
fn a_client_that_leaves_or_falls_silent_is_dropped() {
    let mut host = host();
    let mut a = join(2);
    let mut b = join(3);
    for _ in 0..5 {
        frame(&mut a, &mut host);
        frame(&mut b, &mut host);
    }
    assert_eq!(host.s.player_count(), 3);
    assert_ne!(a.s.my_id(), b.s.my_id());
    for pkt in a.s.leave() {
        a.to_host(Some(pkt));
    }
    deliver(&mut a, &mut host);
    host.update(0.016);
    assert_eq!(host.s.player_count(), 2, "the one that left is gone at once");
    for _ in 0..200 {
        host.update(0.016);
    }
    assert_eq!(host.s.player_count(), 1, "the silent one is gone after three seconds");
    // Back again, it is somebody new.
    let before = b.s.my_id();
    frame(&mut b, &mut host);
    frame(&mut b, &mut host);
    assert!(b.s.my_id() > before);
}

#[test]
fn a_dedicated_host_plays_nobody() {
    let mut host = host();
    host.s.set_dedicated();
    let mut client = join(2);
    for _ in 0..5 {
        frame(&mut client, &mut host);
    }
    assert_eq!(host.s.player_count(), 1);
    assert_eq!(host.s.player_id_at(0), client.s.my_id() as i64);
    assert_eq!(client.s.player_count(), 1, "there is no host player to see");
}

/// What a client says of its own place is not believed; only its inputs count.
#[test]
fn a_reported_place_is_not_believed() {
    let mut host = host();
    install(&mut host);
    let mut client = join(2);
    install(&mut client);
    for _ in 0..5 {
        client.s.pred.s[0] = 900.0f32.to_bits();
        client.send_input(&[1.0, 0.0, 0.1]);
        deliver(&mut client, &mut host);
        host.update(0.016);
    }
    let id = client.s.clients.len() as u32 + 1;
    let x = host.px(id);
    assert!((x - 2.5).abs() < 1e-4, "spawned at 2.0 and moved five tenths, got {x}");
}

#[test]
fn names_are_cut_and_padded() {
    let mut host = host();
    host.s.set_name(b"ABCDEFGHIJKLMNOPQRSTUVWXYZ");
    host.send_input(&[0.0]);
    assert_eq!(host.s.name_len(0), 20);
    assert_eq!(host.name(0), "ABCDEFGHIJKLMNOPQRST");
    assert_eq!(host.s.name_char(0, 20), 0);
    assert_eq!(host.meta(0, META_LEN), 0.0);
    assert_eq!(host.s.state(0, STATE_MAX), 0);
}

/// The host's word and a replay of what it has not heard yet end where the client
/// already predicted itself to be.
#[test]
fn a_right_prediction_is_left_alone() {
    let mut host = host();
    install(&mut host);
    let mut client = join(2);
    install(&mut client);
    for _ in 0..3 {
        client.send_input(&[0.0, 0.0, 0.1]);
        deliver(&mut client, &mut host);
        host.update(0.016);
        deliver(&mut client, &mut host);
        client.update(0.016);
    }
    client.send_input(&[1.0, 0.5, 0.125]);
    deliver(&mut client, &mut host);
    host.update(0.016);
    // Two more that the host has not heard when it speaks.
    client.send_input(&[2.0, -1.0, 0.125]);
    client.send_input(&[4.0, 3.0, 0.125]);
    let before = client.s.pred.s;
    deliver(&mut client, &mut host);
    client.update(0.016);
    assert_eq!(client.s.pending.len(), 2, "two inputs were replayed");
    assert_eq!(client.s.pred.s, before);
    assert_ne!(host.s.clients[0].state.s, before);
}

/// A respawn point a client writes into its input is written over by the host's.
#[test]
fn the_respawn_point_is_the_hosts() {
    let go: Sim = Rc::new(|mut s: State, i: Input| {
        s[..3].copy_from_slice(&i[3..6]);
        s
    });
    let mut host = host();
    host.sim = go.clone();
    host.s.set_sim(4, 6);
    let [x, y, z] = b3([7.0, 1.0, -3.0]);
    host.s.set_spawn(x, y, z);
    host.s.spawn_in = 3;
    let mut client = join(2);
    client.sim = go;
    client.s.set_sim(4, 6);
    client.send_input(&[0.0, 0.0, 0.0, 500.0, 500.0, 500.0]);
    deliver(&mut client, &mut host);
    host.update(0.016);
    assert_eq!(f3([0, 1, 2].map(|k| host.s.clients[0].state.s[k])), [9.0, 1.0, -3.0]);
}

/// What is rewound for a shot can be told apart by its id.
#[test]
fn rewound_things_are_told_apart() {
    let mut host = host();
    let mut a = join(2);
    let mut c = join(3);
    host.s.set_bot_count(2);
    host.s.set_object_count(2);
    frame(&mut a, &mut host);
    frame(&mut c, &mut host);
    host.update(0.016);
    let now = host.s.server_tick;
    let ids: Vec<u64> = host.past.iter().filter(|p| p.tick == now).map(|p| p.id).collect();
    assert_eq!(ids, vec![0, 1, 2, 1000, 1001, 2000, 2001]);
    assert_eq!(ids.iter().collect::<BTreeSet<_>>().len(), 7);
}

/// An empty list goes out once when the visuals are gone, and none after it.
#[test]
fn visuals_are_cleared_once() {
    let mut host = host();
    let mut client = join(2);
    frame(&mut client, &mut host);
    host.s.set_fx_count(1);
    let mut lists = Vec::new();
    for round in 0..4 {
        if round == 1 {
            host.s.set_fx_count(0);
        }
        host.outbox.clear();
        host.update(0.016);
        lists.push(host.outbox.iter().filter(|(_, p)| p[0] == TAG_FX).count());
    }
    assert_eq!(lists, vec![1, 1, 0, 0]);
}
