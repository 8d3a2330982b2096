//! The host's half of a session: admitting clients, taking their datagrams,
//! stepping them with authority, and deciding what each is sent.
use vstd::prelude::*;
use std::collections::HashMap;
use crate::wire::{
    FireMsg, InputMsg, LaunchMsg, Player, ShotFx, INPUT_MAX, META_LEN, NAME_MAX, OBJ_WORDS,
    STATE_MAX, TAG_BOOM, TAG_FIRE, TAG_FX, TAG_INPUT, TAG_LEAVE, TAG_OBJECTS, TAG_PROJECTILE,
    TAG_REJECT, TAG_SHOTFX, decode_fire, decode_input, decode_projectile, encode_booms, encode_fx,
    encode_hit, encode_kill, encode_objects, encode_shots, encode_snapshot,
};
use crate::session::{
    Client, Input, Peer, ServerHit, ServerProjectile, Session, State, BOT_ID_BASE, OBJ_ID_BASE,
    OBJ_RADIUS,
};
use crate::session;
use crate::wire;

verus! {

/// A client not heard for more ticks than this is dropped.
pub const LEAVE_TICKS: u64 = 180;

/// Every this many ticks everything is sent again.
pub const KEYFRAME_TICKS: u64 = 30;

/// A client's shot, ready for a hit test at the tick it was looking at.
#[derive(Clone, Copy)]
pub struct FireQuery {
    pub from: Peer,
    pub shooter: u32,
    pub tick: u64,
    pub o: [u32; 3],
    pub d: [u32; 3],
    pub weapon: u8,
}

/// What the driver owes after a datagram.
pub enum ServerReply {
    Nothing,
    /// Send this to where the datagram came from.
    Send(Vec<u8>),
    /// Cast this ray and hand the outcome to `resolve_fire`.
    Fire(FireQuery),
}

/// One entry of the lag-compensation history: where `id` is now. `size` is an
/// object's own radius and half height; a player has the session's hit radius.
pub struct LagRecord {
    pub id: u64,
    pub pos: [u32; 3],
    pub size: Option<[u32; 2]>,
}

// --- looking clients up --------------------------------------------------------
proof fn lemma_find_addr(cs: Seq<Client>, a: Peer, i: int)
    requires
        0 <= i <= cs.len(),
    ensures
        i <= session::find_addr(cs, a, i) <= cs.len(),
        session::find_addr(cs, a, i) < cs.len() ==> cs[session::find_addr(cs, a, i)].addr == a,
        forall|j: int| i <= j < session::find_addr(cs, a, i) ==> (#[trigger] cs[j]).addr != a,
    decreases cs.len() - i,
{
    if i < cs.len() && cs[i].addr != a {
        lemma_find_addr(cs, a, i + 1);
    }
}

proof fn lemma_filter_step<A>(s: Seq<A>, j: int, p: spec_fn(A) -> bool)
    requires
        0 <= j < s.len(),
    ensures
        s.take(j + 1).filter(p) == (if p(s[j]) {
            s.take(j).filter(p).push(s[j])
        } else {
            s.take(j).filter(p)
        }),
{
    reveal(Seq::filter);
    assert(s.take(j + 1).drop_last() =~= s.take(j));
}

/// A client that has just been admitted.
pub open spec fn is_new_client(a: Session, from: Peer, spawn_x: u32, c: Client) -> bool {
    &&& c.addr == from
    &&& c.id == a.next_id
    &&& forall|i: int|
        0 <= i < STATE_MAX ==> #[trigger] c.state.s@[i] == (if i == 0 {
            spawn_x
        } else if i < 3 {
            a.spawn@[i]
        } else {
            0
        })
    &&& forall|i: int| 0 <= i < META_LEN ==> #[trigger] c.state.meta@[i] == 0
    &&& forall|i: int| 0 <= i < NAME_MAX ==> #[trigger] c.state.name@[i] == 0
    &&& c.inbox@.len() == 0
    &&& c.acked_seq == 0
    &&& c.last_seen == a.server_tick
    &&& c.last_sent@ == Map::<u32, Player>::empty()
    &&& forall|i: int| 0 <= i < META_LEN ==> !(#[trigger] c.meta_owned@[i])
}

/// The client a datagram from `from` belongs to: the one at that address, or a
/// new one.
pub open spec fn is_sender(a: Session, from: Peer, spawn_x: u32, c: Client) -> bool {
    let i = session::find_addr(a.clients@, from, 0);
    if i < a.clients@.len() {
        c == a.clients@[i]
    } else {
        is_new_client(a, from, spawn_x, c)
    }
}

/// A stranger, and no room.
pub open spec fn turned_away(a: Session, from: Peer) -> bool {
    session::find_addr(a.clients@, from, 0) >= a.clients@.len() && a.clients@.len()
        >= a.max_clients
}

/// What an input does to the client that sent it. Its inputs wait to be
/// simulated; its reported state is not believed; of its metadata the slots the
/// host owns are kept.
pub open spec fn heard(c: Client, m: InputMsg, now: u64, b: Client) -> bool {
    &&& b == (Client {
        last_seen: now,
        inbox: b.inbox,
        state: Player { meta: b.state.meta, name: m.name, ..c.state },
        ..c
    })
    &&& b.inbox@ == (if m.seq > c.acked_seq {
        c.inbox@.push((m.seq, m.blob))
    } else {
        c.inbox@
    })
    &&& forall|s: int|
        0 <= s < META_LEN ==> #[trigger] b.state.meta@[s] == (if c.meta_owned@[s] {
            c.state.meta@[s]
        } else {
            m.meta@[s]
        })
}

/// The session after input `m` from `from`.
pub open spec fn takes_input(
    a: Session,
    b: Session,
    m: InputMsg,
    from: Peer,
    spawn_x: u32,
) -> bool {
    let i = session::find_addr(a.clients@, from, 0);
    if turned_away(a, from) {
        b == a
    } else {
        &&& b == (Session { clients: b.clients, next_id: b.next_id, ..a })
        &&& b.next_id == (if i < a.clients@.len() {
            a.next_id as int
        } else {
            a.next_id + 1
        })
        &&& b.clients@ == (if i < a.clients@.len() {
            a.clients@.update(i, b.clients@[i])
        } else {
            a.clients@.push(b.clients@[i])
        })
        &&& exists|c: Client|
            #[trigger] is_sender(a, from, spawn_x, c) && heard(
                c,
                m,
                a.server_tick,
                b.clients@[i],
            )
    }
}

pub open spec fn not_from(a: Peer) -> spec_fn(Client) -> bool {
    |c: Client| c.addr != a
}

pub open spec fn heard_since(cutoff: u64) -> spec_fn(Client) -> bool {
    |c: Client| c.last_seen >= cutoff
}

/// The tick before which a client must not have fallen silent.
pub open spec fn leave_cutoff(tick: u64) -> u64 {
    if tick >= LEAVE_TICKS {
        (tick - LEAVE_TICKS) as u64
    } else {
        0
    }
}

/// Whom a ray met, -1 for nobody.
pub open spec fn hit_id(hit: Option<(i64, [u32; 3])>) -> i64 {
    match hit {
        Some(h) => h.0,
        None => -1i64,
    }
}

/// Where a ray ended, the origin for a miss.
pub open spec fn hit_pos(hit: Option<(i64, [u32; 3])>) -> Seq<u32> {
    match hit {
        Some(h) => h.1@,
        None => seq![0u32, 0, 0],
    }
}

// --- stepping ------------------------------------------------------------------
/// An input with the respawn point written over the slots the game reads it
/// from, where there are such slots.
pub open spec fn is_placed(inp: Input, slot: i32, p: (u32, u32, u32), out: Input) -> bool {
    out@ == (if 0 <= slot && slot + 2 < INPUT_MAX {
        inp@.update(slot as int, p.0).update(slot + 1, p.1).update(slot + 2, p.2)
    } else {
        inp@
    })
}

pub open spec fn all_placed(
    inbox: Seq<(u32, Input)>,
    slot: i32,
    p: (u32, u32, u32),
    ins: Seq<Input>,
) -> bool {
    &&& ins.len() == inbox.len()
    &&& forall|k: int| 0 <= k < ins.len() ==> is_placed(inbox[k].1, slot, p, #[trigger] ins[k])
}

/// A client after its inbox was simulated: every waiting input, in order, each
/// with the host's respawn point in place of the client's.
pub open spec fn is_stepped<F: Fn(State, Input) -> State>(
    sim: F,
    a: Client,
    slot: i32,
    p: (u32, u32, u32),
    b: Client,
) -> bool {
    &&& b == (Client {
        state: Player { s: b.state.s, ..a.state },
        inbox: b.inbox,
        acked_seq: (if a.inbox@.len() == 0 {
            a.acked_seq
        } else {
            a.inbox@.last().0
        }),
        ..a
    })
    &&& b.inbox@.len() == 0
    &&& exists|ins: Seq<Input>|
        #[trigger] all_placed(a.inbox@, slot, p, ins) && session::sim_runs(
            sim,
            a.state.s,
            ins,
            b.state.s,
        )
}

/// Where everything is, for the lag-compensation history: id, position, size.
pub open spec fn lag_model(s: Session) -> Seq<(u64, Seq<u32>, Option<Seq<u32>>)> {
    (if s.dedicated {
        Seq::empty()
    } else {
        seq![(0u64, s.local.s@.take(3), None::<Seq<u32>>)]
    }) + Seq::new(
        s.clients@.len(),
        |i: int| (s.clients@[i].id as u64, s.clients@[i].state.s@.take(3), None::<Seq<u32>>),
    ) + Seq::new(
        s.bots@.len(),
        |i: int| ((BOT_ID_BASE + i) as u64, s.bots@[i].s@.take(3), None::<Seq<u32>>),
    ) + Seq::new(
        s.objects@.len(),
        |i: int| ((OBJ_ID_BASE + i) as u64, s.objects@[i]@.take(3), Some(size_of(s, i))),
    )
}

pub open spec fn size_of(s: Session, i: int) -> Seq<u32> {
    if i < s.sizes@.len() {
        s.sizes@[i]@
    } else {
        seq![OBJ_RADIUS, 0]
    }
}

pub open spec fn lag_view(r: LagRecord) -> (u64, Seq<u32>, Option<Seq<u32>>) {
    (
        r.id,
        r.pos@,
        match r.size {
            Some(z) => Some(z@),
            None => None,
        },
    )
}

/// The participants a host counts: itself unless dedicated, and its clients.
pub open spec fn host_ids(s: Session) -> Seq<u32> {
    (if s.dedicated {
        Seq::empty()
    } else {
        seq![0u32]
    }) + Seq::new(s.clients@.len(), |i: int| s.clients@[i].id)
}

// --- broadcasting --------------------------------------------------------------
/// Everyone a snapshot may show: the host's player unless dedicated, the
/// clients, then the bots.
pub open spec fn roster(s: Session) -> Seq<(u32, Player)> {
    (if s.dedicated {
        Seq::empty()
    } else {
        seq![(0u32, s.local)]
    }) + Seq::new(s.clients@.len(), |i: int| (s.clients@[i].id, s.clients@[i].state)) + Seq::new(
        s.bots@.len(),
        |i: int| ((BOT_ID_BASE + i) as u32, s.bots@[i]),
    )
}

/// The players one client is sent, and what it has then been sent. A player out
/// of interest is left out, the client's own never is; one that did not change
/// is left out except on a keyframe.
pub open spec fn pick(
    last: Map<u32, Player>,
    all: Seq<(u32, Player)>,
    near: Seq<bool>,
    moved: Seq<bool>,
    cid: u32,
    keyframe: bool,
) -> (Seq<(u32, Player)>, Map<u32, Player>)
    decreases all.len(),
{
    if all.len() == 0 {
        (Seq::empty(), last)
    } else {
        let k = all.len() - 1;
        let (inc, m) = pick(last, all.drop_last(), near, moved, cid, keyframe);
        let (id, st) = all.last();
        let changed = !m.dom().contains(id) || moved[k] || m[id].name != st.name;
        if (id != cid && !near[k]) || !(changed || keyframe) {
            (inc, m)
        } else {
            (inc.push((id, st)), m.insert(id, st))
        }
    }
}

/// A datagram and where it goes.
pub open spec fn gram(g: (Peer, Vec<u8>)) -> (Peer, Seq<u8>) {
    (g.0, g.1@)
}

pub open spec fn grams(v: Seq<(Peer, Vec<u8>)>) -> Seq<(Peer, Seq<u8>)> {
    Seq::new(v.len(), |i: int| gram(v[i]))
}

/// One datagram to every client.
pub open spec fn to_all(cs: Seq<Client>, b: Seq<u8>) -> Seq<(Peer, Seq<u8>)> {
    Seq::new(cs.len(), |i: int| (cs[i].addr, b))
}

/// Client `i`'s snapshot.
pub open spec fn snapshot_gram(
    s: Session,
    near: Seq<Vec<bool>>,
    moved: Seq<Vec<bool>>,
    i: int,
) -> (Peer, Seq<u8>) {
    let c = s.clients@[i];
    (
        c.addr,
        wire::snapshot_bytes(
            c.id,
            c.acked_seq,
            s.tick,
            s.server_tick as u32,
            s.state_len as int,
            pick(c.last_sent@, roster(s), near[i]@, moved[i]@, c.id, is_keyframe(s)).0,
        ),
    )
}

pub open spec fn is_keyframe(s: Session) -> bool {
    s.server_tick % KEYFRAME_TICKS == 0
}

/// The first `n` kills, each to every client.
pub open spec fn kill_grams(cs: Seq<Client>, kills: Seq<(u32, u32)>, n: int) -> Seq<
    (Peer, Seq<u8>),
>
    decreases n,
{
    if n <= 0 {
        Seq::empty()
    } else {
        kill_grams(cs, kills, n - 1) + to_all(
            cs,
            wire::kill_bytes(kills[n - 1].0, kills[n - 1].1),
        )
    }
}

/// Whether the objects go out this tick.
pub open spec fn objects_due(s: Session, objects_moved: bool) -> bool {
    objects_moved || s.objects@.len() != s.last_sent_objects@.len() || is_keyframe(s)
}

/// Whether the transient visuals go out this tick: while there are any, and once
/// more to clear them.
pub open spec fn fx_due(s: Session) -> bool {
    s.fx@.len() > 0 || !s.last_fx_empty
}

/// Everything a host sends on one tick, in order.
pub open spec fn broadcast_grams(
    s: Session,
    near: Seq<Vec<bool>>,
    moved: Seq<Vec<bool>>,
    objects_moved: bool,
) -> Seq<(Peer, Seq<u8>)> {
    let snaps = Seq::new(s.clients@.len(), |i: int| snapshot_gram(s, near, moved, i));
    let objs = if objects_due(s, objects_moved) {
        to_all(s.clients@, wire::list_bytes(TAG_OBJECTS, s.objects@, wire::object_enc()))
    } else {
        Seq::empty()
    };
    let fx = if fx_due(s) {
        to_all(s.clients@, wire::list_bytes(TAG_FX, s.fx@, wire::fx_enc()))
    } else {
        Seq::empty()
    };
    snaps + objs + fx + kill_grams(s.clients@, s.kill_out@, s.kill_out@.len() as int)
}

fn copy_bytes(v: &Vec<u8>) -> (r: Vec<u8>)
    ensures
        r@ == v@,
{
    let r = v.clone();
    assert(r@ =~= v@);
    r
}

fn pos_of(s: &State) -> (r: [u32; 3])
    ensures
        r@ == s@.take(3),
{
    let r = [s[0], s[1], s[2]];
    assert(r@ =~= s@.take(3));
    r
}

impl Session {
    /// Find the client at `from`, or admit it while there is room. `spawn_x` is
    /// where along x it starts, so that players do not start on one spot.
    fn ensure_client(&mut self, from: Peer, spawn_x: u32) -> (r: Option<usize>)
        requires
            old(self).wf(),
            old(self).next_id < u32::MAX,
        ensures
            final(self).wf(),
            r is None <==> turned_away(*old(self), from),
            r is None ==> *final(self) == *old(self),
            r matches Some(i) ==> {
                &&& i == session::find_addr(old(self).clients@, from, 0)
                &&& i < final(self).clients@.len()
                &&& is_sender(*old(self), from, spawn_x, final(self).clients@[i as int])
                &&& *final(self) == (Session {
                    clients: final(self).clients,
                    next_id: final(self).next_id,
                    ..*old(self)
                })
                &&& i < old(self).clients@.len() ==> *final(self) == *old(self)
                &&& i >= old(self).clients@.len() ==> final(self).next_id == old(self).next_id + 1
                    && final(self).clients@ == old(self).clients@.push(
                    final(self).clients@[i as int],
                )
            },
    {
        proof {
            lemma_find_addr(self.clients@, from, 0);
        }
        let mut i: usize = 0;
        while i < self.clients.len() && self.clients[i].addr != from
            invariant
                i <= self.clients@.len(),
                *self == *old(self),
                session::find_addr(self.clients@, from, 0) == session::find_addr(
                    self.clients@,
                    from,
                    i as int,
                ),
            decreases self.clients@.len() - i,
        {
            i += 1;
        }
        if i < self.clients.len() {
            return Some(i);
        }
        if self.clients.len() >= self.max_clients {
            return None;
        }
        let id: u32 = self.next_id;
        self.next_id = self.next_id + 1;
        let mut state = Player::spawn();
        state.s[0] = spawn_x;
        state.s[1] = self.spawn[1];
        state.s[2] = self.spawn[2];
        self.clients.push(
            Client {
                addr: from,
                id,
                state,
                inbox: Vec::new(),
                acked_seq: 0,
                last_seen: self.server_tick,
                last_sent: HashMap::new(),
                meta_owned: [false; 18],
            },
        );
        Some(i)
    }

    /// Take one input. Returns whether its sender is in the lobby.
    pub fn take_input(&mut self, m: &InputMsg, from: Peer, spawn_x: u32) -> (r: bool)
        requires
            old(self).wf(),
            old(self).next_id < u32::MAX,
        ensures
            final(self).wf(),
            r == !turned_away(*old(self), from),
            takes_input(*old(self), *final(self), *m, from, spawn_x),
    {
        match self.ensure_client(from, spawn_x) {
            None => false,
            Some(i) => {
                let ghost mid = *self;
                let ghost c = mid.clients@[i as int];
                self.clients[i].last_seen = self.server_tick;
                if m.seq > self.clients[i].acked_seq {
                    self.clients[i].inbox.push((m.seq, m.blob));
                }
                let mut s: usize = 0;
                while s < META_LEN
                    invariant
                        s <= META_LEN,
                        i < self.clients@.len() == mid.clients@.len(),
                        *self == (Session { clients: self.clients, ..mid }),
                        self.clients@ == mid.clients@.update(i as int, self.clients@[i as int]),
                        self.clients@[i as int] == (Client {
                            last_seen: mid.server_tick,
                            inbox: self.clients@[i as int].inbox,
                            state: Player {
                                meta: self.clients@[i as int].state.meta,
                                ..c.state
                            },
                            ..c
                        }),
                        self.clients@[i as int].inbox@ == (if m.seq > c.acked_seq {
                            c.inbox@.push((m.seq, m.blob))
                        } else {
                            c.inbox@
                        }),
                        forall|k: int|
                            0 <= k < META_LEN ==> #[trigger] self.clients@[i as int].state.meta@[k]
                                == (if k >= s || c.meta_owned@[k] {
                                c.state.meta@[k]
                            } else {
                                m.meta@[k]
                            }),
                    decreases META_LEN - s,
                {
                    if !self.clients[i].meta_owned[s] {
                        self.clients[i].state.meta[s] = m.meta[s];
                        assert(self.clients@ =~= mid.clients@.update(
                            i as int,
                            self.clients@[i as int],
                        ));
                    }
                    s += 1;
                }
                self.clients[i].state.name = m.name;
                proof {
                    assert(is_sender(*old(self), from, spawn_x, c));
                    assert(heard(c, *m, old(self).server_tick, self.clients@[i as int]));
                    if i < old(self).clients@.len() {
                        assert(self.clients@ =~= old(self).clients@.update(
                            i as int,
                            self.clients@[i as int],
                        ));
                    } else {
                        assert(self.clients@ =~= old(self).clients@.push(self.clients@[i as int]));
                    }
                }
                true
            },
        }
    }

    /// Take one datagram from `from`. `spawn_x` is where along x a newcomer
    /// starts.
    pub fn on_server_packet(&mut self, pkt: &[u8], from: Peer, spawn_x: u32) -> (r: ServerReply)
        requires
            old(self).wf(),
            old(self).next_id < u32::MAX,
        ensures
            final(self).wf(),
            ({
                let a = *old(self);
                let b = *final(self);
                let i = session::find_addr(a.clients@, from, 0);
                let known = i < a.clients@.len();
                if wire::is_input(pkt@, a.input_len as int, a.state_len as int) {
                    &&& exists|m: InputMsg|
                        #[trigger] wire::says_input(
                            pkt@,
                            a.input_len as int,
                            a.state_len as int,
                            m,
                        ) && takes_input(a, b, m, from, spawn_x)
                    &&& turned_away(a, from) ==> (r matches ServerReply::Send(v) && v@
                        == seq![TAG_REJECT])
                    &&& !turned_away(a, from) ==> r is Nothing
                } else if wire::is_fire(pkt@) && known {
                    &&& b == a
                    &&& r matches ServerReply::Fire(q) && q.from == from && q.shooter
                        == a.clients@[i].id && q.tick == (if wire::word_at(pkt@, 1)
                        <= a.server_tick {
                        wire::word_at(pkt@, 1) as u64
                    } else {
                        a.server_tick
                    }) && q.o@ == wire::words_at(pkt@, 5, 3) && q.d@ == wire::words_at(pkt@, 17, 3)
                        && q.weapon == pkt@[29]
                } else if wire::is_projectile(pkt@) && known {
                    &&& r is Nothing
                    &&& b == (Session { server_projectiles: b.server_projectiles, ..a })
                    &&& b.server_projectiles@ == a.server_projectiles@.push(
                        b.server_projectiles@.last(),
                    )
                    &&& b.server_projectiles@.last().shooter == a.clients@[i].id
                    &&& b.server_projectiles@.last().kind == pkt@[1]
                    &&& b.server_projectiles@.last().origin@ == wire::words_at(pkt@, 2, 3)
                    &&& b.server_projectiles@.last().vel@ == wire::words_at(pkt@, 14, 3)
                } else if pkt@.len() > 0 && pkt@[0] == TAG_LEAVE {
                    &&& r is Nothing
                    &&& b == (Session { clients: b.clients, ..a })
                    &&& b.clients@ == a.clients@.filter(not_from(from))
                } else {
                    r is Nothing && b == a
                }
            }),
    {
        if pkt.len() == 0 {
            return ServerReply::Nothing;
        }
        let tag: u8 = pkt[0];
        if tag == TAG_INPUT {
            match decode_input(pkt, self.input_len, self.state_len) {
                Some(m) => {
                    if self.take_input(&m, from, spawn_x) {
                        ServerReply::Nothing
                    } else {
                        let mut v: Vec<u8> = Vec::new();
                        v.push(TAG_REJECT);
                        assert(v@ =~= seq![TAG_REJECT]);
                        ServerReply::Send(v)
                    }
                },
                None => ServerReply::Nothing,
            }
        } else if tag == TAG_FIRE {
            match decode_fire(pkt) {
                Some(m) => self.fire_query(&m, from),
                None => ServerReply::Nothing,
            }
        } else if tag == TAG_PROJECTILE {
            match decode_projectile(pkt) {
                Some(m) => {
                    self.take_launch(&m, from);
                    ServerReply::Nothing
                },
                None => ServerReply::Nothing,
            }
        } else if tag == TAG_LEAVE {
            self.drop_from(from);
            ServerReply::Nothing
        } else {
            ServerReply::Nothing
        }
    }

    /// The index of the client at `from`, or the number of clients.
    fn index_from(&self, from: Peer) -> (r: usize)
        ensures
            r == session::find_addr(self.clients@, from, 0),
            r <= self.clients@.len(),
    {
        let mut i: usize = 0;
        while i < self.clients.len() && self.clients[i].addr != from
            invariant
                i <= self.clients@.len(),
                session::find_addr(self.clients@, from, 0) == session::find_addr(
                    self.clients@,
                    from,
                    i as int,
                ),
            decreases self.clients@.len() - i,
        {
            i += 1;
        }
        i
    }

    fn fire_query(&self, m: &FireMsg, from: Peer) -> (r: ServerReply)
        ensures
            ({
                let i = session::find_addr(self.clients@, from, 0);
                if i < self.clients@.len() {
                    r matches ServerReply::Fire(q) && q.from == from && q.shooter
                        == self.clients@[i].id && q.tick == (if m.view_tick <= self.server_tick {
                        m.view_tick as u64
                    } else {
                        self.server_tick
                    }) && q.o == m.o && q.d == m.d && q.weapon == m.weapon
                } else {
                    r is Nothing
                }
            }),
    {
        let i: usize = self.index_from(from);
        if i >= self.clients.len() {
            return ServerReply::Nothing;
        }
        let tick: u64 = if m.view_tick as u64 <= self.server_tick {
            m.view_tick as u64
        } else {
            self.server_tick
        };
        ServerReply::Fire(
            FireQuery {
                from,
                shooter: self.clients[i].id,
                tick,
                o: m.o,
                d: m.d,
                weapon: m.weapon,
            },
        )
    }

    fn take_launch(&mut self, m: &LaunchMsg, from: Peer)
        requires
            old(self).wf(),
        ensures
            final(self).wf(),
            ({
                let i = session::find_addr(old(self).clients@, from, 0);
                if i < old(self).clients@.len() {
                    &&& *final(self) == (Session {
                        server_projectiles: final(self).server_projectiles,
                        ..*old(self)
                    })
                    &&& final(self).server_projectiles@ == old(self).server_projectiles@.push(
                        (ServerProjectile {
                            shooter: old(self).clients@[i].id,
                            kind: m.kind,
                            origin: m.origin,
                            vel: m.vel,
                        }),
                    )
                } else {
                    *final(self) == *old(self)
                }
            }),
    {
        let i: usize = self.index_from(from);
        if i < self.clients.len() {
            let shooter: u32 = self.clients[i].id;
            self.server_projectiles.push(
                ServerProjectile { shooter, kind: m.kind, origin: m.origin, vel: m.vel },
            );
        }
    }

    /// Remove whoever is at `from`.
    fn drop_from(&mut self, from: Peer)
        requires
            old(self).wf(),
        ensures
            final(self).wf(),
            *final(self) == (Session { clients: final(self).clients, ..*old(self) }),
            final(self).clients@ == old(self).clients@.filter(not_from(from)),
    {
        let ghost cs = self.clients@;
        let ghost p = not_from(from);
        let mut i: usize = 0;
        let ghost mut j: int = 0;
        proof {
            reveal(Seq::filter);
            assert(cs.take(0) =~= Seq::empty());
            assert(self.clients@.take(0) =~= cs.take(0).filter(p));
        }
        while i < self.clients.len()
            invariant
                i <= self.clients@.len(),
                0 <= j <= cs.len(),
                p == not_from(from),
                self.wf(),
                *self == (Session { clients: self.clients, ..*old(self) }),
                self.clients@.len() - i == cs.len() - j,
                self.clients@.take(i as int) == cs.take(j).filter(p),
                self.clients@.skip(i as int) == cs.skip(j),
            decreases self.clients@.len() - i,
        {
            proof {
                lemma_filter_step(cs, j, p);
                assert(self.clients@[i as int] == self.clients@.skip(i as int)[0]);
                assert(cs[j] == cs.skip(j)[0]);
            }
            let ghost before = self.clients@;
            if self.clients[i].addr != from {
                i += 1;
                assert(before.take(i as int) =~= before.take(i - 1).push(before[i - 1]));
                assert(before.skip(i as int) =~= before.skip(i - 1).skip(1));
            } else {
                self.clients.remove(i);
                assert(self.clients@.take(i as int) =~= before.take(i as int));
                assert(self.clients@.skip(i as int) =~= before.skip(i as int).skip(1));
            }
            proof {
                assert(cs.skip(j + 1) =~= cs.skip(j).skip(1));
                j = j + 1;
            }
        }
        assert(self.clients@.take(i as int) =~= self.clients@);
        assert(cs.take(j) =~= cs);
    }

    /// Remove everyone not heard since tick `cutoff`.
    fn drop_silent(&mut self, cutoff: u64)
        requires
            old(self).wf(),
        ensures
            final(self).wf(),
            *final(self) == (Session { clients: final(self).clients, ..*old(self) }),
            final(self).clients@ == old(self).clients@.filter(heard_since(cutoff)),
    {
        let ghost cs = self.clients@;
        let ghost p = heard_since(cutoff);
        let mut i: usize = 0;
        let ghost mut j: int = 0;
        proof {
            reveal(Seq::filter);
            assert(cs.take(0) =~= Seq::empty());
            assert(self.clients@.take(0) =~= cs.take(0).filter(p));
        }
        while i < self.clients.len()
            invariant
                i <= self.clients@.len(),
                0 <= j <= cs.len(),
                p == heard_since(cutoff),
                self.wf(),
                *self == (Session { clients: self.clients, ..*old(self) }),
                self.clients@.len() - i == cs.len() - j,
                self.clients@.take(i as int) == cs.take(j).filter(p),
                self.clients@.skip(i as int) == cs.skip(j),
            decreases self.clients@.len() - i,
        {
            proof {
                lemma_filter_step(cs, j, p);
                assert(self.clients@[i as int] == self.clients@.skip(i as int)[0]);
                assert(cs[j] == cs.skip(j)[0]);
            }
            let ghost before = self.clients@;
            if self.clients[i].last_seen >= cutoff {
                i += 1;
                assert(before.take(i as int) =~= before.take(i - 1).push(before[i - 1]));
                assert(before.skip(i as int) =~= before.skip(i - 1).skip(1));
            } else {
                self.clients.remove(i);
                assert(self.clients@.take(i as int) =~= before.take(i as int));
                assert(self.clients@.skip(i as int) =~= before.skip(i as int).skip(1));
            }
            proof {
                assert(cs.skip(j + 1) =~= cs.skip(j).skip(1));
                j = j + 1;
            }
        }
        assert(self.clients@.take(i as int) =~= self.clients@);
        assert(cs.take(j) =~= cs);
    }

    /// Settle a client's shot. `hit` is what the ray met at the tick the shooter
    /// saw, `far` a point far along it for a miss. Returns the datagram that
    /// tells the shooter; a hit waits for the game, and the shot itself is
    /// announced either way.
    pub fn resolve_fire(
        &mut self,
        q: FireQuery,
        hit: Option<(i64, [u32; 3])>,
        far: [u32; 3],
    ) -> (r: Vec<u8>)
        requires
            old(self).wf(),
        ensures
            final(self).wf(),
            *final(self) == (Session {
                server_hits: final(self).server_hits,
                shots_out: final(self).shots_out,
                ..*old(self)
            }),
            r@ == wire::hit_bytes(hit_id(hit), hit_pos(hit)),
            hit_id(hit) < 0 ==> final(self).server_hits == old(self).server_hits,
            hit_id(hit) >= 0 ==> {
                let h = final(self).server_hits@.last();
                &&& final(self).server_hits@ == old(self).server_hits@.push(h)
                &&& h.shooter == q.shooter
                &&& h.victim == hit_id(hit)
                &&& h.point@ == hit_pos(hit)
                &&& h.weapon == q.weapon
            },
            ({
                let shot = final(self).shots_out@.last();
                &&& final(self).shots_out@ == old(self).shots_out@.push(shot)
                &&& shot.shooter == q.shooter
                &&& shot.o == q.o
                &&& shot.e@ == (if hit_id(hit) >= 0 {
                    hit_pos(hit)
                } else {
                    far@
                })
                &&& shot.weapon == q.weapon
            }),
    {
        let id: i64 = match hit {
            Some(h) => h.0,
            None => -1,
        };
        let point = match hit {
            Some(h) => h.1,
            None => [0u32; 3],
        };
        assert(hit is None ==> point@ =~= seq![0u32, 0, 0]);
        if id >= 0 {
            self.server_hits.push(
                ServerHit { shooter: q.shooter, victim: id, point, weapon: q.weapon },
            );
        }
        let e = if id >= 0 {
            point
        } else {
            far
        };
        self.shots_out.push(ShotFx { shooter: q.shooter, o: q.o, e, weapon: q.weapon });
        let r = encode_hit(id, point);
        assert(id >= 0 ==> self.server_hits@ =~= old(self).server_hits@.push(
            self.server_hits@.last(),
        ));
        assert(self.shots_out@ =~= old(self).shots_out@.push(self.shots_out@.last()));
        r
    }

    /// Simulate one client's waiting inputs.
    fn step_client<F: Fn(State, Input) -> State>(&mut self, i: usize, sim: &F, spawn_x: u32)
        requires
            old(self).wf(),
            i < old(self).clients@.len(),
            forall|s: State, x: Input| sim.requires((s, x)),
        ensures
            final(self).wf(),
            *final(self) == (Session { clients: final(self).clients, ..*old(self) }),
            final(self).clients@ == old(self).clients@.update(
                i as int,
                final(self).clients@[i as int],
            ),
            is_stepped(
                *sim,
                old(self).clients@[i as int],
                old(self).spawn_in,
                (spawn_x, old(self).spawn@[1], old(self).spawn@[2]),
                final(self).clients@[i as int],
            ),
    {
        let ghost a = self.clients@[i as int];
        let ghost p = (spawn_x, self.spawn@[1], self.spawn@[2]);
        let slot: i32 = self.spawn_in;
        let place: bool = slot >= 0 && slot <= 21;
        let b: usize = if place {
            slot as usize
        } else {
            0
        };
        let (y, z): (u32, u32) = (self.spawn[1], self.spawn[2]);
        let mut s = self.clients[i].state.s;
        let mut acked: u32 = self.clients[i].acked_seq;
        let ghost mut ins: Seq<Input> = Seq::empty();
        let ghost mut tr: Seq<State> = seq![s];
        let mut k: usize = 0;
        while k < self.clients[i].inbox.len()
            invariant
                *self == *old(self),
                i < self.clients@.len(),
                a == self.clients@[i as int],
                p == (spawn_x, y, z),
                slot == self.spawn_in,
                place == (0 <= slot && slot + 2 < INPUT_MAX),
                place ==> b == slot,
                k <= a.inbox@.len(),
                forall|s: State, x: Input| sim.requires((s, x)),
                ins.len() == k,
                forall|n: int| 0 <= n < k ==> is_placed(a.inbox@[n].1, slot, p, #[trigger] ins[n]),
                session::is_run(*sim, a.state.s, ins, tr),
                tr.last() == s,
                acked == (if k == 0 {
                    a.acked_seq
                } else {
                    a.inbox@[k - 1].0
                }),
            decreases a.inbox@.len() - k,
        {
            let (seq, mut inp): (u32, Input) = self.clients[i].inbox[k];
            if place {
                inp[b] = spawn_x;
                inp[b + 1] = y;
                inp[b + 2] = z;
            }
            assert(is_placed(a.inbox@[k as int].1, slot, p, inp));
            let ghost s1 = s;
            s = sim(s, inp);
            proof {
                let ins2 = ins.push(inp);
                let tr2 = tr.push(s);
                assert forall|n: int| 0 <= n < ins2.len() implies sim.ensures(
                    (tr2[n], #[trigger] ins2[n]),
                    tr2[n + 1],
                ) by {
                    if n < ins.len() {
                        assert(ins2[n] == ins[n]);
                        assert(tr2[n] == tr[n] && tr2[n + 1] == tr[n + 1]);
                    }
                }
                ins = ins2;
                tr = tr2;
            }
            acked = seq;
            k += 1;
        }
        self.clients[i].state.s = s;
        self.clients[i].acked_seq = acked;
        self.clients[i].inbox.clear();
        proof {
            assert(all_placed(a.inbox@, slot, p, ins));
            assert(session::sim_runs(*sim, a.state.s, ins, s));
            assert(self.clients@ =~= old(self).clients@.update(i as int, self.clients@[i as int]));
        }
    }

    /// Where everything is now.
    fn lag_records(&self) -> (r: Vec<LagRecord>)
        requires
            self.wf(),
            self.objects@.len() <= u32::MAX,
        ensures
            r@.len() == lag_model(*self).len(),
            forall|k: int| 0 <= k < r@.len() ==> lag_view(#[trigger] r@[k]) == lag_model(*self)[k],
    {
        let ghost m = lag_model(*self);
        let mut r: Vec<LagRecord> = Vec::new();
        if !self.dedicated {
            r.push(LagRecord { id: 0, pos: pos_of(&self.local.s), size: None });
        }
        let ghost n0 = r@.len() as int;
        let mut i: usize = 0;
        while i < self.clients.len()
            invariant
                self.wf(),
                i <= self.clients@.len(),
                m == lag_model(*self),
                n0 == (if self.dedicated {
                    0int
                } else {
                    1int
                }),
                r@.len() == n0 + i,
                forall|k: int| 0 <= k < r@.len() ==> lag_view(#[trigger] r@[k]) == m[k],
            decreases self.clients@.len() - i,
        {
            r.push(
                LagRecord {
                    id: self.clients[i].id as u64,
                    pos: pos_of(&self.clients[i].state.s),
                    size: None,
                },
            );
            i += 1;
        }
        let ghost n1 = r@.len() as int;
        let mut i: usize = 0;
        while i < self.bots.len()
            invariant
                self.wf(),
                i <= self.bots@.len(),
                m == lag_model(*self),
                n1 == self.clients@.len() + (if self.dedicated {
                    0int
                } else {
                    1int
                }),
                r@.len() == n1 + i,
                forall|k: int| 0 <= k < r@.len() ==> lag_view(#[trigger] r@[k]) == m[k],
            decreases self.bots@.len() - i,
        {
            r.push(
                LagRecord {
                    id: BOT_ID_BASE as u64 + i as u64,
                    pos: pos_of(&self.bots[i].s),
                    size: None,
                },
            );
            i += 1;
        }
        let ghost n2 = r@.len() as int;
        let mut i: usize = 0;
        while i < self.objects.len()
            invariant
                self.wf(),
                self.objects@.len() <= u32::MAX,
                i <= self.objects@.len(),
                m == lag_model(*self),
                n2 == self.bots@.len() + self.clients@.len() + (if self.dedicated {
                    0int
                } else {
                    1int
                }),
                r@.len() == n2 + i,
                forall|k: int| 0 <= k < r@.len() ==> lag_view(#[trigger] r@[k]) == m[k],
            decreases self.objects@.len() - i,
        {
            let pos = [self.objects[i][0], self.objects[i][1], self.objects[i][2]];
            assert(pos@ =~= self.objects@[i as int]@.take(3));
            let size = if i < self.sizes.len() {
                self.sizes[i]
            } else {
                [OBJ_RADIUS, 0]
            };
            assert(size@ =~= size_of(*self, i as int));
            r.push(LagRecord { id: OBJ_ID_BASE + i as u64, pos, size: Some(size) });
            i += 1;
        }
        r
    }

    /// Advance the host by one tick: simulate every client's waiting inputs, drop
    /// the clients that went silent, and set the clock to `tick`. `spawn_xs` is
    /// where along x each client respawns. Returns where everything is, for the
    /// lag-compensation history.
    pub fn update_server<F: Fn(State, Input) -> State>(
        &mut self,
        sim: F,
        spawn_xs: &Vec<u32>,
        tick: u32,
    ) -> (r: Vec<LagRecord>)
        requires
            old(self).wf(),
            old(self).server_tick < u64::MAX,
            old(self).objects@.len() <= u32::MAX,
            spawn_xs@.len() == old(self).clients@.len(),
            forall|s: State, x: Input| sim.requires((s, x)),
        ensures
            final(self).wf(),
            ({
                let a = *old(self);
                let b = *final(self);
                let cutoff = leave_cutoff(b.server_tick);
                &&& b == (Session {
                    clients: b.clients,
                    server_tick: (a.server_tick + 1) as u64,
                    tick,
                    ids: b.ids,
                    ..a
                })
                &&& b.ids@ == host_ids(b)
                &&& exists|mid: Seq<Client>|
                    #![trigger mid.filter(heard_since(cutoff))]
                    mid.len() == a.clients@.len() && (forall|i: int|
                        0 <= i < mid.len() ==> is_stepped(
                            sim,
                            a.clients@[i],
                            a.spawn_in,
                            (spawn_xs@[i], a.spawn@[1], a.spawn@[2]),
                            #[trigger] mid[i],
                        )) && b.clients@ == mid.filter(heard_since(cutoff))
            }),
            r@.len() == lag_model(*final(self)).len(),
            forall|k: int|
                0 <= k < r@.len() ==> lag_view(#[trigger] r@[k]) == lag_model(*final(self))[k],
    {
        let ghost a = *self;
        let mut i: usize = 0;
        while i < self.clients.len()
            invariant
                i <= self.clients@.len(),
                self.wf(),
                *self == (Session { clients: self.clients, ..a }),
                self.clients@.len() == a.clients@.len(),
                spawn_xs@.len() == a.clients@.len(),
                forall|s: State, x: Input| sim.requires((s, x)),
                forall|k: int|
                    0 <= k < i ==> is_stepped(
                        sim,
                        a.clients@[k],
                        a.spawn_in,
                        (spawn_xs@[k], a.spawn@[1], a.spawn@[2]),
                        #[trigger] self.clients@[k],
                    ),
                forall|k: int| i <= k < a.clients@.len() ==> self.clients@[k] == a.clients@[k],
            decreases self.clients@.len() - i,
        {
            let ghost before = self.clients@;
            self.step_client(i, &sim, spawn_xs[i]);
            assert forall|k: int| 0 <= k < i + 1 implies is_stepped(
                sim,
                a.clients@[k],
                a.spawn_in,
                (spawn_xs@[k], a.spawn@[1], a.spawn@[2]),
                #[trigger] self.clients@[k],
            ) by {
                if k < i {
                    assert(self.clients@[k] == before[k]);
                }
            }
            i += 1;
        }
        let ghost mid = self.clients@;
        self.server_tick = self.server_tick + 1;
        let cutoff: u64 = if self.server_tick >= LEAVE_TICKS {
            self.server_tick - LEAVE_TICKS
        } else {
            0
        };
        self.drop_silent(cutoff);
        assert(self.clients@ == mid.filter(heard_since(cutoff)));
        self.tick = tick;
        let r = self.lag_records();
        let ghost b = *self;
        let mut ids: Vec<u32> = Vec::new();
        if !self.dedicated {
            ids.push(0);
        }
        let mut i: usize = 0;
        while i < self.clients.len()
            invariant
                i <= self.clients@.len(),
                *self == b,
                ids@.len() == i + (if self.dedicated {
                    0int
                } else {
                    1int
                }),
                ids@ == host_ids(*self).take(ids@.len() as int),
            decreases self.clients@.len() - i,
        {
            ids.push(self.clients[i].id);
            assert(ids@ =~= host_ids(*self).take(ids@.len() as int));
            i += 1;
        }
        assert(ids@ =~= host_ids(*self));
        self.ids = ids;
        assert(host_ids(*self) =~= host_ids(b));
        assert(lag_model(*self) =~= lag_model(b));
        assert(self.clients@ == mid.filter(heard_since(leave_cutoff(self.server_tick))));
        r
    }

    /// Everyone a snapshot may show, in the order `broadcast` weighs them.
    pub fn roster(&self) -> (r: Vec<(u32, Player)>)
        requires
            self.wf(),
        ensures
            r@ == roster(*self),
    {
        let mut all: Vec<(u32, Player)> = Vec::new();
        if !self.dedicated {
            all.push((0, self.local));
        }
        let mut i: usize = 0;
        while i < self.clients.len()
            invariant
                self.wf(),
                i <= self.clients@.len(),
                all@.len() == i + (if self.dedicated {
                    0int
                } else {
                    1int
                }),
                all@ == roster(*self).take(all@.len() as int),
            decreases self.clients@.len() - i,
        {
            all.push((self.clients[i].id, self.clients[i].state));
            assert(all@ =~= roster(*self).take(all@.len() as int));
            i += 1;
        }
        let mut i: usize = 0;
        while i < self.bots.len()
            invariant
                self.wf(),
                i <= self.bots@.len(),
                all@.len() == self.clients@.len() + i + (if self.dedicated {
                    0int
                } else {
                    1int
                }),
                all@ == roster(*self).take(all@.len() as int),
            decreases self.bots@.len() - i,
        {
            all.push((BOT_ID_BASE + i as u32, self.bots[i]));
            assert(all@ =~= roster(*self).take(all@.len() as int));
            i += 1;
        }
        assert(all@ =~= roster(*self));
        all
    }

    /// What client `i` was last sent of player `id`.
    pub fn last_sent(&self, i: usize, id: u32) -> (r: Option<Player>)
        requires
            i < self.clients@.len(),
        ensures
            r == (if self.clients@[i as int].last_sent@.dom().contains(id) {
                Some(self.clients@[i as int].last_sent@[id])
            } else {
                None
            }),
    {
        match self.clients[i].last_sent.get(&id) {
            Some(p) => Some(*p),
            None => None,
        }
    }

    /// Choose what client `i` is sent and note it as sent.
    fn pick_for(
        &mut self,
        i: usize,
        all: &Vec<(u32, Player)>,
        near: &Vec<bool>,
        moved: &Vec<bool>,
        keyframe: bool,
    ) -> (r: Vec<(u32, Player)>)
        requires
            old(self).wf(),
            i < old(self).clients@.len(),
            near@.len() >= all@.len(),
            moved@.len() >= all@.len(),
        ensures
            final(self).wf(),
            *final(self) == (Session { clients: final(self).clients, ..*old(self) }),
            final(self).clients@ == old(self).clients@.update(
                i as int,
                final(self).clients@[i as int],
            ),
            final(self).clients@[i as int] == (Client {
                last_sent: final(self).clients@[i as int].last_sent,
                ..old(self).clients@[i as int]
            }),
            (r@, final(self).clients@[i as int].last_sent@) == pick(
                old(self).clients@[i as int].last_sent@,
                all@,
                near@,
                moved@,
                old(self).clients@[i as int].id,
                keyframe,
            ),
    {
        let ghost c0 = self.clients@[i as int];
        let cid: u32 = self.clients[i].id;
        let mut r: Vec<(u32, Player)> = Vec::new();
        let mut k: usize = 0;
        assert(all@.take(0) =~= Seq::empty());
        while k < all.len()
            invariant
                k <= all@.len(),
                near@.len() >= all@.len(),
                moved@.len() >= all@.len(),
                i < self.clients@.len() == old(self).clients@.len(),
                self.wf(),
                cid == c0.id,
                c0 == old(self).clients@[i as int],
                *self == (Session { clients: self.clients, ..*old(self) }),
                self.clients@ == old(self).clients@.update(i as int, self.clients@[i as int]),
                self.clients@[i as int] == (Client {
                    last_sent: self.clients@[i as int].last_sent,
                    ..c0
                }),
                (r@, self.clients@[i as int].last_sent@) == pick(
                    c0.last_sent@,
                    all@.take(k as int),
                    near@,
                    moved@,
                    cid,
                    keyframe,
                ),
            decreases all@.len() - k,
        {
            assert(all@.take(k + 1).drop_last() =~= all@.take(k as int));
            let (id, st): (u32, Player) = all[k];
            if id == cid || near[k] {
                let changed: bool = match self.clients[i].last_sent.get(&id) {
                    Some(p) => moved[k] || !same_name(&p.name, &st.name),
                    None => true,
                };
                if changed || keyframe {
                    r.push((id, st));
                    self.clients[i].last_sent.insert(id, st);
                    assert(self.clients@ =~= old(self).clients@.update(
                        i as int,
                        self.clients@[i as int],
                    ));
                }
            }
            k += 1;
        }
        assert(all@.take(k as int) =~= all@);
        r
    }

    /// Queue one datagram for every client.
    fn queue_all(&self, out: &mut Vec<(Peer, Vec<u8>)>, b: &Vec<u8>)
        ensures
            grams(final(out)@) == grams(old(out)@) + to_all(self.clients@, b@),
    {
        let ghost o0 = grams(out@);
        let mut i: usize = 0;
        while i < self.clients.len()
            invariant
                i <= self.clients@.len(),
                grams(out@) == o0 + to_all(self.clients@.take(i as int), b@),
            decreases self.clients@.len() - i,
        {
            let ghost before = out@;
            out.push((self.clients[i].addr, copy_bytes(b)));
            proof {
                assert(grams(out@) =~= grams(before).push((self.clients@[i as int].addr, b@)));
                assert(to_all(self.clients@.take(i + 1), b@) =~= to_all(
                    self.clients@.take(i as int),
                    b@,
                ).push((self.clients@[i as int].addr, b@)));
            }
            i += 1;
        }
        assert(self.clients@.take(i as int) =~= self.clients@);
    }

    /// Everything the host sends on one tick. `near[i][k]` says that roster entry
    /// `k` is within client `i`'s interest, `moved[i][k]` that its floats differ
    /// from what the client was last sent, `objects_moved` that an object's do.
    pub fn broadcast(
        &mut self,
        near: &Vec<Vec<bool>>,
        moved: &Vec<Vec<bool>>,
        objects_moved: bool,
    ) -> (r: Vec<(Peer, Vec<u8>)>)
        requires
            old(self).wf(),
            near@.len() == old(self).clients@.len(),
            moved@.len() == old(self).clients@.len(),
            forall|i: int|
                0 <= i < near@.len() ==> (#[trigger] near@[i])@.len() == roster(*old(self)).len(),
            forall|i: int|
                0 <= i < moved@.len() ==> (#[trigger] moved@[i])@.len() == roster(*old(self)).len(),
        ensures
            final(self).wf(),
            grams(r@) == broadcast_grams(*old(self), near@, moved@, objects_moved),
            ({
                let a = *old(self);
                let b = *final(self);
                &&& b == (Session {
                    clients: b.clients,
                    last_sent_objects: b.last_sent_objects,
                    last_fx_empty: (if fx_due(a) {
                        a.fx@.len() == 0
                    } else {
                        a.last_fx_empty
                    }),
                    kill_out: b.kill_out,
                    ..a
                })
                &&& b.kill_out@.len() == 0
                &&& b.last_sent_objects@ == (if objects_due(a, objects_moved) {
                    a.objects@
                } else {
                    a.last_sent_objects@
                })
                &&& b.clients@.len() == a.clients@.len()
                &&& forall|i: int|
                    0 <= i < b.clients@.len() ==> (#[trigger] b.clients@[i]) == (Client {
                        last_sent: b.clients@[i].last_sent,
                        ..a.clients@[i]
                    }) && b.clients@[i].last_sent@ == pick(
                        a.clients@[i].last_sent@,
                        roster(a),
                        near@[i]@,
                        moved@[i]@,
                        a.clients@[i].id,
                        is_keyframe(a),
                    ).1
            }),
    {
        let ghost a = *self;
        let all = self.roster();
        let keyframe: bool = self.server_tick % KEYFRAME_TICKS == 0;
        let stick: u32 = #[verifier::truncate] (self.server_tick as u32);
        let mut out: Vec<(Peer, Vec<u8>)> = Vec::new();
        let mut i: usize = 0;
        while i < self.clients.len()
            invariant
                i <= self.clients@.len(),
                self.wf(),
                all@ == roster(a),
                keyframe == is_keyframe(a),
                stick == a.server_tick as u32,
                *self == (Session { clients: self.clients, ..a }),
                self.clients@.len() == a.clients@.len(),
                near@.len() == a.clients@.len(),
                moved@.len() == a.clients@.len(),
                forall|i: int|
                    0 <= i < near@.len() ==> (#[trigger] near@[i])@.len() == roster(a).len(),
                forall|i: int|
                    0 <= i < moved@.len() ==> (#[trigger] moved@[i])@.len() == roster(a).len(),
                out@.len() == i,
                forall|k: int|
                    0 <= k < i ==> gram(#[trigger] out@[k]) == snapshot_gram(a, near@, moved@, k),
                forall|k: int|
                    0 <= k < i ==> (#[trigger] self.clients@[k]) == (Client {
                        last_sent: self.clients@[k].last_sent,
                        ..a.clients@[k]
                    }) && self.clients@[k].last_sent@ == pick(
                        a.clients@[k].last_sent@,
                        roster(a),
                        near@[k]@,
                        moved@[k]@,
                        a.clients@[k].id,
                        is_keyframe(a),
                    ).1,
                forall|k: int| i <= k < a.clients@.len() ==> self.clients@[k] == a.clients@[k],
            decreases self.clients@.len() - i,
        {
            let ghost before = self.clients@;
            let inc = self.pick_for(i, &all, &near[i], &moved[i], keyframe);
            let pkt = encode_snapshot(
                self.clients[i].id,
                self.clients[i].acked_seq,
                self.tick,
                stick,
                self.state_len,
                &inc,
            );
            let ghost o0 = out@;
            out.push((self.clients[i].addr, pkt));
            assert forall|k: int| 0 <= k < i + 1 implies gram(#[trigger] out@[k]) == snapshot_gram(
                a,
                near@,
                moved@,
                k,
            ) by {
                if k < i {
                    assert(out@[k] == o0[k]);
                }
            }
            i += 1;
        }
        let ghost snaps = Seq::new(a.clients@.len(), |i: int| snapshot_gram(a, near@, moved@, i));
        assert(grams(out@) =~= snaps);
        assert(forall|b: Seq<u8>| to_all(self.clients@, b) =~= to_all(a.clients@, b));
        if objects_moved || self.objects.len() != self.last_sent_objects.len() || keyframe {
            let b = encode_objects(&self.objects);
            self.queue_all(&mut out, &b);
            let mut sent: Vec<[u32; OBJ_WORDS]> = Vec::new();
            let mut k: usize = 0;
            while k < self.objects.len()
                invariant
                    k <= self.objects@.len(),
                    sent@ == self.objects@.take(k as int),
                decreases self.objects@.len() - k,
            {
                sent.push(self.objects[k]);
                assert(sent@ =~= self.objects@.take(k + 1));
                k += 1;
            }
            assert(sent@ =~= self.objects@);
            self.last_sent_objects = sent;
        }
        let ghost part2 = grams(out@);
        if self.fx.len() > 0 || !self.last_fx_empty {
            let b = encode_fx(&self.fx);
            self.queue_all(&mut out, &b);
            self.last_fx_empty = self.fx.len() == 0;
        }
        let ghost part3 = grams(out@);
        let ghost clients = self.clients@;
        let mut k: usize = 0;
        while k < self.kill_out.len()
            invariant
                k <= self.kill_out@.len(),
                self.clients@ == clients,
                grams(out@) == part3 + kill_grams(clients, self.kill_out@, k as int),
            decreases self.kill_out@.len() - k,
        {
            let b = encode_kill(self.kill_out[k].0, self.kill_out[k].1);
            self.queue_all(&mut out, &b);
            k += 1;
        }
        proof {
            lemma_kill_grams(clients, a.clients@, a.kill_out@, k as int);
            let objs = if objects_due(a, objects_moved) {
                to_all(a.clients@, wire::list_bytes(TAG_OBJECTS, a.objects@, wire::object_enc()))
            } else {
                Seq::empty()
            };
            let fx = if fx_due(a) {
                to_all(a.clients@, wire::list_bytes(TAG_FX, a.fx@, wire::fx_enc()))
            } else {
                Seq::empty()
            };
            assert(part2 =~= snaps + objs);
            assert(part3 =~= part2 + fx);
            assert(grams(out@) =~= broadcast_grams(a, near@, moved@, objects_moved));
        }
        self.kill_out.clear();
        out
    }

    /// End of frame: the host sends this frame's shots and forgets them; a client
    /// forgets the ones it drew.
    pub fn flush_shots(&mut self) -> (r: Vec<(Peer, Vec<u8>)>)
        requires
            old(self).wf(),
        ensures
            final(self).wf(),
            old(self).is_server ==> *final(self) == (Session {
                shots_out: final(self).shots_out,
                ..*old(self)
            }) && final(self).shots_out@.len() == 0 && grams(r@) == (if old(self).shots_out@.len()
                == 0 {
                Seq::empty()
            } else {
                to_all(
                    old(self).clients@,
                    wire::list_bytes(TAG_SHOTFX, old(self).shots_out@, wire::shot_enc()),
                )
            }),
            !old(self).is_server ==> *final(self) == (Session {
                shots_in: final(self).shots_in,
                ..*old(self)
            }) && final(self).shots_in@.len() == 0 && r@.len() == 0,
    {
        let mut out: Vec<(Peer, Vec<u8>)> = Vec::new();
        assert(grams(out@) =~= Seq::empty());
        if self.is_server {
            if self.shots_out.len() > 0 {
                let b = encode_shots(&self.shots_out);
                self.queue_all(&mut out, &b);
                self.shots_out.clear();
                assert(grams(out@) =~= to_all(old(self).clients@, b@));
            }
        } else {
            self.shots_in.clear();
        }
        out
    }

    /// End of frame: the host sends this frame's explosions and forgets them; a
    /// client forgets the ones it drew.
    pub fn flush_booms(&mut self) -> (r: Vec<(Peer, Vec<u8>)>)
        requires
            old(self).wf(),
        ensures
            final(self).wf(),
            old(self).is_server ==> *final(self) == (Session {
                booms_out: final(self).booms_out,
                ..*old(self)
            }) && final(self).booms_out@.len() == 0 && grams(r@) == (if old(self).booms_out@.len()
                == 0 {
                Seq::empty()
            } else {
                to_all(
                    old(self).clients@,
                    wire::list_bytes(TAG_BOOM, old(self).booms_out@, wire::boom_enc()),
                )
            }),
            !old(self).is_server ==> *final(self) == (Session {
                booms_in: final(self).booms_in,
                ..*old(self)
            }) && final(self).booms_in@.len() == 0 && r@.len() == 0,
    {
        let mut out: Vec<(Peer, Vec<u8>)> = Vec::new();
        assert(grams(out@) =~= Seq::empty());
        if self.is_server {
            if self.booms_out.len() > 0 {
                let b = encode_booms(&self.booms_out);
                self.queue_all(&mut out, &b);
                self.booms_out.clear();
                assert(grams(out@) =~= to_all(old(self).clients@, b@));
            }
        } else {
            self.booms_in.clear();
        }
        out
    }
}

/// What the host has taken over of a client's metadata, no report of that client
/// changes.
pub proof fn law_owned_slots_are_the_hosts(c: Client, m: InputMsg, now: u64, b: Client, s: int)
    requires
        heard(c, m, now, b),
        0 <= s < META_LEN,
        c.meta_owned@[s],
    ensures
        b.state.meta@[s] == c.state.meta@[s],
        b.meta_owned@[s],
{
}

/// A client's report of its own state is never believed: only its inputs are
/// kept.
pub proof fn law_reported_state_is_not_believed(
    c: Client,
    m: InputMsg,
    other: InputMsg,
    now: u64,
    b: Client,
)
    requires
        heard(c, m, now, b),
        other == (InputMsg { state: other.state, ..m }),
    ensures
        heard(c, other, now, b),
        b.state.s == c.state.s,
{
}

/// A lobby that is not over its limit never gets there.
pub proof fn law_lobby_is_capped(a: Session, b: Session, m: InputMsg, from: Peer, spawn_x: u32)
    requires
        takes_input(a, b, m, from, spawn_x),
        a.clients@.len() <= a.max_clients,
    ensures
        b.clients@.len() <= b.max_clients,
        turned_away(a, from) ==> b == a,
{
    lemma_find_addr(a.clients@, from, 0);
}

/// A newcomer's id belongs to no one in the session.
pub proof fn law_newcomers_get_fresh_ids(a: Session, from: Peer, spawn_x: u32, c: Client, i: int)
    requires
        a.wf(),
        is_new_client(a, from, spawn_x, c),
        0 <= i < a.clients@.len(),
    ensures
        a.clients@[i].id != c.id,
        c.id != 0,
{
}

/// A keyframe holds every player in interest, and the client's own whether it is
/// in interest or not.
pub proof fn law_keyframe_is_complete(
    last: Map<u32, Player>,
    all: Seq<(u32, Player)>,
    near: Seq<bool>,
    moved: Seq<bool>,
    cid: u32,
    k: int,
)
    requires
        0 <= k < all.len(),
        all[k].0 == cid || near[k],
    ensures
        pick(last, all, near, moved, cid, true).0.contains(all[k]),
    decreases all.len(),
{
    let (inc, m) = pick(last, all.drop_last(), near, moved, cid, true);
    let out = pick(last, all, near, moved, cid, true).0;
    if k < all.len() - 1 {
        law_keyframe_is_complete(last, all.drop_last(), near, moved, cid, k);
        assert(all.drop_last()[k] == all[k]);
        let j = choose|j: int| 0 <= j < inc.len() && inc[j] == all[k];
        assert(out[j] == all[k]);
    } else {
        assert(out[out.len() - 1] == all[k]);
    }
}

/// Between keyframes, players that did not change are not sent.
pub proof fn law_quiet_players_are_not_sent(
    last: Map<u32, Player>,
    all: Seq<(u32, Player)>,
    near: Seq<bool>,
    moved: Seq<bool>,
    cid: u32,
)
    requires
        forall|k: int|
            0 <= k < all.len() ==> last.dom().contains((#[trigger] all[k]).0) && !moved[k]
                && last[all[k].0].name == all[k].1.name,
    ensures
        pick(last, all, near, moved, cid, false) == (Seq::<(u32, Player)>::empty(), last),
    decreases all.len(),
{
    if all.len() > 0 {
        assert forall|k: int| 0 <= k < all.drop_last().len() implies last.dom().contains(
            (#[trigger] all.drop_last()[k]).0,
        ) && !moved[k] && last[all.drop_last()[k].0].name == all.drop_last()[k].1.name by {
            assert(all.drop_last()[k] == all[k]);
        }
        law_quiet_players_are_not_sent(last, all.drop_last(), near, moved, cid);
        assert(all.last() == all[all.len() - 1]);
    }
}

/// A player out of interest is not sent, unless it is the client's own.
pub proof fn law_interest_culls(
    last: Map<u32, Player>,
    all: Seq<(u32, Player)>,
    near: Seq<bool>,
    moved: Seq<bool>,
    cid: u32,
    keyframe: bool,
    j: int,
)
    requires
        0 <= j < pick(last, all, near, moved, cid, keyframe).0.len(),
    ensures
        exists|k: int|
            0 <= k < all.len() && #[trigger] all[k] == pick(
                last,
                all,
                near,
                moved,
                cid,
                keyframe,
            ).0[j] && (all[k].0 == cid || near[k]),
    decreases all.len(),
{
    if all.len() > 0 {
        let (inc, m) = pick(last, all.drop_last(), near, moved, cid, keyframe);
        if j < inc.len() {
            law_interest_culls(last, all.drop_last(), near, moved, cid, keyframe, j);
            let k = choose|k: int|
                0 <= k < all.drop_last().len() && #[trigger] all.drop_last()[k] == inc[j] && (
                all.drop_last()[k].0 == cid || near[k]);
            assert(all[k] == inc[j]);
        } else {
            assert(all[all.len() - 1] == all.last());
        }
    }
}

proof fn lemma_kill_grams(a: Seq<Client>, b: Seq<Client>, kills: Seq<(u32, u32)>, n: int)
    requires
        a.len() == b.len(),
        forall|i: int| 0 <= i < a.len() ==> (#[trigger] a[i]).addr == b[i].addr,
    ensures
        kill_grams(a, kills, n) == kill_grams(b, kills, n),
    decreases n,
{
    if n > 0 {
        lemma_kill_grams(a, b, kills, n - 1);
        let x = wire::kill_bytes(kills[n - 1].0, kills[n - 1].1);
        assert(to_all(a, x) =~= to_all(b, x));
    }
}

fn same_name(a: &[u8; NAME_MAX], b: &[u8; NAME_MAX]) -> (r: bool)
    ensures
        r == (*a == *b),
{
    let mut i: usize = 0;
    while i < NAME_MAX
        invariant
            i <= NAME_MAX,
            forall|k: int| 0 <= k < i ==> a@[k] == b@[k],
        decreases NAME_MAX - i,
    {
        if a[i] != b[i] {
            assert(a@[i as int] != b@[i as int]);
            return false;
        }
        i += 1;
    }
    assert(*a =~= *b) by {
        assert forall|k: int| 0 <= k < NAME_MAX implies a[k] == b[k] by {
            assert(a@[k] == b@[k]);
        }
    }
    true
}

/// Where a client respawns is the host's to say: two inputs that differ only in the
/// slots the respawn point is read from are simulated as one and the same.
pub proof fn law_the_respawn_point_is_the_hosts(
    a: Input,
    b: Input,
    slot: i32,
    p: (u32, u32, u32),
    x: Input,
    y: Input,
)
    requires
        0 <= slot,
        slot + 2 < INPUT_MAX,
        forall|i: int|
            0 <= i < INPUT_MAX && !(slot <= i <= slot + 2) ==> #[trigger] a@[i] == b@[i],
        is_placed(a, slot, p, x),
        is_placed(b, slot, p, y),
    ensures
        x == y,
{
    assert(x@ =~= y@);
}

/// In the history that shots are rewound against no two things share an id, while
/// player ids stay below the bots' and bot ids below the objects'.
pub proof fn law_rewound_things_are_told_apart(s: Session, i: int, j: int)
    requires
        s.wf(),
        s.next_id <= BOT_ID_BASE,
        BOT_ID_BASE + s.bots@.len() <= OBJ_ID_BASE,
        OBJ_ID_BASE + s.objects@.len() <= u64::MAX,
        0 <= i < j < lag_model(s).len(),
    ensures
        lag_model(s)[i].0 != lag_model(s)[j].0,
{
    let own: int = if s.dedicated {
        0
    } else {
        1
    };
    let clients = own + s.clients@.len();
    if own <= i && j < clients {
        assert(s.clients@[i - own].id != s.clients@[j - own].id);
    }
    if own <= i < clients {
        assert(1 <= s.clients@[i - own].id < s.next_id);
    }
    if own <= j < clients {
        assert(1 <= s.clients@[j - own].id < s.next_id);
    }
}

/// Visuals that are gone are cleared with one empty list, and then nothing of them
/// is sent until there are some again.
pub proof fn law_visuals_are_cleared_once(a: Session, b: Session)
    requires
        a.fx@.len() == 0,
        b.fx == a.fx,
        b.last_fx_empty == (if fx_due(a) {
            a.fx@.len() == 0
        } else {
            a.last_fx_empty
        }),
    ensures
        !fx_due(b),
{
}

/// A newcomer stands at the place drawn for it and at the spawn point's height and depth,
/// with nothing else of a state, no name, no waiting input and nothing sent to it yet.
pub proof fn law_newcomers_stand_at_the_spawn(a: Session, from: Peer, spawn_x: u32, c: Client, i: int)
    requires
        is_new_client(a, from, spawn_x, c),
        3 <= i < STATE_MAX,
    ensures
        c.addr == from,
        c.state.s@[0] == spawn_x,
        c.state.s@[1] == a.spawn@[1],
        c.state.s@[2] == a.spawn@[2],
        c.state.s@[i] == 0,
        c.inbox@.len() == 0,
        c.last_seen == a.server_tick,
        c.last_sent@.dom().is_empty(),
        session::name_end(c.state.name@, 0) == 0,
{
    assert(c.state.s@[0] == spawn_x);
    assert(c.state.s@[1] == a.spawn@[1]);
    assert(c.state.s@[2] == a.spawn@[2]);
    assert(c.state.s@[i] == 0);
    assert(c.state.name@[0] == 0);
}

/// Someone is turned away exactly where nobody has that address and the lobby is full.
pub proof fn law_only_strangers_are_turned_away(a: Session, from: Peer)
    ensures
        turned_away(a, from) <==> a.clients@.len() >= a.max_clients && forall|i: int|
            0 <= i < a.clients@.len() ==> (#[trigger] a.clients@[i]).addr != from,
{
    lemma_find_addr(a.clients@, from, 0);
    session::law_addresses_are_found_first(a.clients@, from, 0);
}

/// An input that is newer than the last one simulated waits behind those that wait, and
/// an older one is dropped. The name and the slots of the metadata that the host has not
/// taken over are the client's to say; everything else of it stays.
pub proof fn law_inputs_wait_in_order(c: Client, m: InputMsg, now: u64, b: Client, s: int)
    requires
        heard(c, m, now, b),
        0 <= s < META_LEN,
    ensures
        m.seq > c.acked_seq ==> b.inbox@.len() == c.inbox@.len() + 1 && b.inbox@.last() == (
            m.seq,
            m.blob,
        ) && c.inbox@.is_prefix_of(b.inbox@),
        m.seq <= c.acked_seq ==> b.inbox@ == c.inbox@,
        !c.meta_owned@[s] ==> b.state.meta@[s] == m.meta@[s],
        b.state.name == m.name,
        b.last_seen == now,
        b.addr == c.addr,
        b.id == c.id,
        b.acked_seq == c.acked_seq,
{
    assert(b.state.meta@[s] == (if c.meta_owned@[s] {
        c.state.meta@[s]
    } else {
        m.meta@[s]
    }));
}

/// A client stays as long as it was heard of within the last 180 ticks.
pub proof fn law_silence_is_suffered_so_long(c: Client, tick: u64)
    ensures
        heard_since(leave_cutoff(tick))(c) <==> tick <= c.last_seen + 180,
        c.last_seen == tick ==> heard_since(leave_cutoff(tick))(c),
{
}

/// A client that leaves takes its own place with it and nobody else's.
pub proof fn law_only_the_leaver_leaves(a: Peer, c: Client)
    ensures
        not_from(a)(c) <==> c.addr != a,
{
}

/// A hit says whom and where; a miss says nobody, at the origin.
pub proof fn law_hits_say_whom_and_where(id: i64, at: [u32; 3])
    ensures
        hit_id(Some((id, at))) == id,
        hit_pos(Some((id, at))) == at@,
        hit_id(None) == -1,
        hit_pos(None) == seq![0u32, 0, 0],
{
}

/// The respawn point's coordinates stand one behind the other from the slot on, and every
/// other word of the input stays. A slot outside the input is none.
pub proof fn law_the_respawn_point_is_written_in_order(
    inp: Input,
    slot: i32,
    p: (u32, u32, u32),
    out: Input,
    i: int,
)
    requires
        is_placed(inp, slot, p, out),
        0 <= i < INPUT_MAX,
    ensures
        0 <= slot && slot + 3 <= INPUT_MAX ==> out@[slot as int] == p.0 && out@[slot + 1] == p.1
            && out@[slot + 2] == p.2,
        !(slot <= i < slot + 3) ==> out@[i] == inp@[i],
        slot < 0 || slot + 3 > INPUT_MAX ==> out@ == inp@,
{
}

/// Simulating a client leaves it nothing to simulate and acknowledges the last of what
/// waited. Without waiting inputs its state stays.
pub proof fn law_stepping_empties_the_inbox<F: Fn(State, Input) -> State>(
    sim: F,
    a: Client,
    slot: i32,
    p: (u32, u32, u32),
    b: Client,
)
    requires
        is_stepped(sim, a, slot, p, b),
    ensures
        b.inbox@.len() == 0,
        a.inbox@.len() > 0 ==> b.acked_seq == a.inbox@[a.inbox@.len() - 1].0,
        a.inbox@.len() == 0 ==> b.acked_seq == a.acked_seq && b.state.s == a.state.s,
        b.state.meta == a.state.meta,
        b.state.name == a.state.name,
        b.addr == a.addr,
        b.id == a.id,
        b.last_seen == a.last_seen,
{
    let ins = choose|ins: Seq<Input>|
        #[trigger] all_placed(a.inbox@, slot, p, ins) && session::sim_runs(
            sim,
            a.state.s,
            ins,
            b.state.s,
        );
    assert(all_placed(a.inbox@, slot, p, ins));
    if a.inbox@.len() == 0 {
        let tr = choose|tr: Seq<State>|
            #[trigger] session::is_run(sim, a.state.s, ins, tr) && tr.last() == b.state.s;
        assert(session::is_run(sim, a.state.s, ins, tr));
        assert(tr.len() == 1);
    }
}

/// A snapshot may show the host's own player as 0 unless the host is dedicated, then every
/// client's by its id, then the bots by numbers from 1000 on.
pub proof fn law_the_roster_holds_everyone(s: Session, i: int, k: int)
    requires
        0 <= i < s.clients@.len(),
        0 <= k < s.bots@.len(),
        BOT_ID_BASE + s.bots@.len() <= u32::MAX,
    ensures
        ({
            let own: int = if s.dedicated { 0 } else { 1 };
            let r = roster(s);
            &&& r.len() == own + s.clients@.len() + s.bots@.len()
            &&& !s.dedicated ==> r[0] == (0u32, s.local)
            &&& r[own + i] == (s.clients@[i].id, s.clients@[i].state)
            &&& r[own + s.clients@.len() + k].0 == 1000 + k
            &&& r[own + s.clients@.len() + k].1 == s.bots@[k]
        }),
{
}

/// The participants a host counts are those of the roster that are no bots, in the same
/// order.
pub proof fn law_bots_are_not_counted(s: Session)
    ensures
        host_ids(s).len() + s.bots@.len() == roster(s).len(),
        forall|i: int| 0 <= i < host_ids(s).len() ==> #[trigger] host_ids(s)[i] == roster(s)[i].0,
{
}

/// The history that shots are rewound against holds the roster, everyone at the first
/// three words of the state, and behind it the objects by numbers from 2000 on, with
/// their sizes; one without a size has the default one, 0.45 as a float's bits.
pub proof fn law_the_history_holds_the_roster_and_the_objects(s: Session, i: int, k: int)
    requires
        BOT_ID_BASE + s.bots@.len() <= u32::MAX,
        OBJ_ID_BASE + s.objects@.len() <= u64::MAX,
    ensures
        ({
            let (h, r) = (lag_model(s), roster(s));
            &&& h.len() == r.len() + s.objects@.len()
            &&& 0 <= i < r.len() ==> h[i].0 == r[i].0 && h[i].2 is None && h[i].1 == seq![
                r[i].1.s@[0],
                r[i].1.s@[1],
                r[i].1.s@[2],
            ]
            &&& 0 <= k < s.objects@.len() ==> {
                &&& h[r.len() + k].0 == 2000 + k
                &&& h[r.len() + k].1 == seq![
                    s.objects@[k]@[0],
                    s.objects@[k]@[1],
                    s.objects@[k]@[2],
                ]
                &&& k < s.sizes@.len() ==> h[r.len() + k].2 == Some(s.sizes@[k]@)
                &&& k >= s.sizes@.len() ==> h[r.len() + k].2 == Some(seq![0x3ee6_6666u32, 0u32])
            }
        }),
{
    let (h, r) = (lag_model(s), roster(s));
    if 0 <= i < r.len() {
        assert(h[i].1 =~= seq![r[i].1.s@[0], r[i].1.s@[1], r[i].1.s@[2]]);
    }
    if 0 <= k < s.objects@.len() {
        assert(h[r.len() + k].1 =~= seq![s.objects@[k]@[0], s.objects@[k]@[1], s.objects@[k]@[2]]);
    }
}

/// A player in interest that moved, that has another name or that the client was never
/// sent is sent, keyframe or not.
pub proof fn law_changes_are_sent(
    last: Map<u32, Player>,
    all: Seq<(u32, Player)>,
    near: Seq<bool>,
    moved: Seq<bool>,
    cid: u32,
    keyframe: bool,
    k: int,
)
    requires
        0 <= k < all.len(),
        all[k].0 == cid || near[k],
        forall|a: int, b: int|
            0 <= a < b < all.len() ==> (#[trigger] all[a]).0 != (#[trigger] all[b]).0,
        moved[k] || !last.dom().contains(all[k].0) || last[all[k].0].name != all[k].1.name,
    ensures
        pick(last, all, near, moved, cid, keyframe).0.contains(all[k]),
    decreases all.len(),
{
    let less = all.drop_last();
    let (inc, m) = pick(last, less, near, moved, cid, keyframe);
    let out = pick(last, all, near, moved, cid, keyframe).0;
    assert forall|a: int, b: int| 0 <= a < b < less.len() implies (#[trigger] less[a]).0 != (
    #[trigger] less[b]).0 by {
        assert(all[a].0 != all[b].0);
    }
    if k < all.len() - 1 {
        assert(less[k] == all[k]);
        law_changes_are_sent(last, less, near, moved, cid, keyframe, k);
        let j = choose|j: int| 0 <= j < inc.len() && inc[j] == all[k];
        assert(out[j] == all[k]);
    } else {
        assert forall|a: int| 0 <= a < less.len() implies (#[trigger] less[a]).0 != all[k].0 by {
            assert(all[a].0 != all[k].0);
        }
        lemma_unsent(last, less, near, moved, cid, keyframe, all[k].0);
        assert(out[out.len() - 1] == all[k]);
    }
}

/// Whoever is not among the players keeps the place it had in what was sent.
proof fn lemma_unsent(
    last: Map<u32, Player>,
    all: Seq<(u32, Player)>,
    near: Seq<bool>,
    moved: Seq<bool>,
    cid: u32,
    keyframe: bool,
    id: u32,
)
    requires
        forall|a: int| 0 <= a < all.len() ==> (#[trigger] all[a]).0 != id,
    ensures
        ({
            let m = pick(last, all, near, moved, cid, keyframe).1;
            &&& m.dom().contains(id) == last.dom().contains(id)
            &&& last.dom().contains(id) ==> m[id] == last[id]
        }),
    decreases all.len(),
{
    if all.len() > 0 {
        assert(all[all.len() - 1].0 != id);
        assert forall|a: int| 0 <= a < all.drop_last().len() implies (#[trigger] all.drop_last()[a]).0
            != id by {
            assert(all[a].0 != id);
        }
        lemma_unsent(last, all.drop_last(), near, moved, cid, keyframe, id);
    }
}

/// What a client has been sent is remembered: the last word on everyone who is sent, and
/// what it was for everyone else.
pub proof fn law_what_is_sent_is_remembered(
    last: Map<u32, Player>,
    all: Seq<(u32, Player)>,
    near: Seq<bool>,
    moved: Seq<bool>,
    cid: u32,
    keyframe: bool,
    id: u32,
)
    ensures
        ({
            let (sent, m) = pick(last, all, near, moved, cid, keyframe);
            let is_sent = exists|j: int| 0 <= j < sent.len() && (#[trigger] sent[j]).0 == id;
            &&& m.dom().contains(id) <==> is_sent || last.dom().contains(id)
            &&& is_sent ==> exists|j: int|
                0 <= j < sent.len() && (#[trigger] sent[j]) == (id, m[id]) && forall|b: int|
                    j < b < sent.len() ==> (#[trigger] sent[b]).0 != id
            &&& !is_sent && last.dom().contains(id) ==> m[id] == last[id]
        }),
    decreases all.len(),
{
    if all.len() > 0 {
        let less = all.drop_last();
        law_what_is_sent_is_remembered(last, less, near, moved, cid, keyframe, id);
        let (inc, n) = pick(last, less, near, moved, cid, keyframe);
        let (sent, m) = pick(last, all, near, moved, cid, keyframe);
        if sent.len() > inc.len() {
            let end = sent.len() - 1;
            assert(sent[end] == all.last());
            if all.last().0 == id {
                assert(sent[end] == (id, m[id]));
            } else {
                if exists|j: int| 0 <= j < inc.len() && (#[trigger] inc[j]).0 == id {
                    let j = choose|j: int|
                        0 <= j < inc.len() && (#[trigger] inc[j]) == (id, n[id]) && forall|b: int|
                            j < b < inc.len() ==> (#[trigger] inc[b]).0 != id;
                    assert(sent[j] == (id, m[id]));
                    assert forall|b: int| j < b < sent.len() implies (#[trigger] sent[b]).0
                        != id by {
                        if b < inc.len() {
                            assert(inc[b].0 != id);
                        }
                    }
                }
                if exists|j: int| 0 <= j < sent.len() && (#[trigger] sent[j]).0 == id {
                    let j = choose|j: int| 0 <= j < sent.len() && (#[trigger] sent[j]).0 == id;
                    assert(inc[j].0 == id);
                }
            }
        }
    }
}

/// The first tick is a keyframe, and from one keyframe to the next it is always 30 ticks.
pub proof fn law_keyframes_keep_their_distance(a: Session, b: Session)
    ensures
        a.server_tick == 0 ==> is_keyframe(a),
        is_keyframe(a) && b.server_tick == a.server_tick + 30 ==> is_keyframe(b),
        is_keyframe(a) && a.server_tick < b.server_tick < a.server_tick + 30
            ==> !is_keyframe(b),
{
}

/// The objects go out where one of them moved, where there are more or fewer of them than
/// last time, and on keyframes, and at no other time.
pub proof fn law_objects_go_out_when_they_change(s: Session)
    ensures
        objects_due(s, true),
        s.objects@.len() != s.last_sent_objects@.len() ==> objects_due(s, false),
        is_keyframe(s) ==> objects_due(s, false),
        objects_due(s, false) ==> is_keyframe(s) || s.objects@.len() != s.last_sent_objects@.len(),
{
}

/// Every kill goes to every client once, the earlier kills first.
pub proof fn law_every_client_hears_of_every_kill(
    cs: Seq<Client>,
    kills: Seq<(u32, u32)>,
    n: int,
    k: int,
    i: int,
)
    requires
        0 <= k < n <= kills.len(),
        0 <= i < cs.len(),
    ensures
        kill_grams(cs, kills, n).len() == n * cs.len(),
        k * cs.len() + i < n * cs.len(),
        kill_grams(cs, kills, n)[k * cs.len() + i] == (
            cs[i].addr,
            wire::kill_bytes(kills[k].0, kills[k].1),
        ),
    decreases n,
{
    lemma_kill_count(cs, kills, n - 1);
    lemma_kill_count(cs, kills, n);
    let c = cs.len() as int;
    assert((n - 1) * c + c == n * c) by (nonlinear_arith);
    assert(0 <= k * c) by (nonlinear_arith)
        requires
            0 <= k,
            0 <= c,
    ;
    if k < n - 1 {
        law_every_client_hears_of_every_kill(cs, kills, n - 1, k, i);
    }
}

proof fn lemma_kill_count(cs: Seq<Client>, kills: Seq<(u32, u32)>, n: int)
    requires
        0 <= n,
    ensures
        kill_grams(cs, kills, n).len() == n * cs.len(),
    decreases n,
{
    let c = cs.len() as int;
    if n > 0 {
        lemma_kill_count(cs, kills, n - 1);
        assert((n - 1) * c + c == n * c) by (nonlinear_arith);
    } else {
        assert(0 * c == 0);
    }
}

/// On every tick each client is first sent a snapshot of its own, at its own address.
pub proof fn law_every_client_gets_its_snapshot(
    s: Session,
    near: Seq<Vec<bool>>,
    moved: Seq<Vec<bool>>,
    objects_moved: bool,
    i: int,
)
    requires
        0 <= i < s.clients@.len(),
    ensures
        ({
            let c = s.clients@[i];
            let g = broadcast_grams(s, near, moved, objects_moved)[i];
            &&& g.0 == c.addr
            &&& g.1 == wire::snapshot_bytes(
                c.id,
                c.acked_seq,
                s.tick,
                s.server_tick as u32,
                s.state_len as int,
                pick(c.last_sent@, roster(s), near[i]@, moved[i]@, c.id, is_keyframe(s)).0,
            )
        }),
{
}

/// The sender of a datagram from the address of a client is that client.
pub proof fn law_the_sender_is_who_has_the_address(
    a: Session,
    from: Peer,
    spawn_x: u32,
    c: Client,
    i: int,
)
    requires
        a.wf(),
        is_sender(a, from, spawn_x, c),
    ensures
        c.addr == from,
        0 <= i < a.clients@.len() && a.clients@[i].addr == from ==> c == a.clients@[i],
        (forall|k: int| 0 <= k < a.clients@.len() ==> (#[trigger] a.clients@[k]).addr != from)
            ==> c.id == a.next_id,
{
    session::law_addresses_are_found_first(a.clients@, from, 0);
    let f = session::find_addr(a.clients@, from, 0);
    if 0 <= i < a.clients@.len() && a.clients@[i].addr == from {
        if f < i {
            assert(a.clients@[f].addr != a.clients@[i].addr);
        }
        assert(f == i);
    }
}

/// An input changes nothing of any other client. A newcomer comes last and takes the next
/// id; someone who is there already takes none.
pub proof fn law_inputs_change_only_their_sender(
    a: Session,
    b: Session,
    m: InputMsg,
    from: Peer,
    spawn_x: u32,
    i: int,
)
    requires
        a.wf(),
        takes_input(a, b, m, from, spawn_x),
        0 <= i < a.clients@.len(),
    ensures
        a.clients@[i].addr != from ==> b.clients@[i] == a.clients@[i],
        a.clients@[i].addr == from ==> {
            &&& b.clients@.len() == a.clients@.len()
            &&& b.next_id == a.next_id
            &&& heard(a.clients@[i], m, a.server_tick, b.clients@[i])
        },
        b.clients@.len() > a.clients@.len() ==> {
            &&& b.clients@.len() == a.clients@.len() + 1
            &&& b.next_id == a.next_id + 1
            &&& b.clients@.last().addr == from
            &&& b.clients@.last().id == a.next_id
        },
{
    session::law_addresses_are_found_first(a.clients@, from, 0);
    let f = session::find_addr(a.clients@, from, 0);
    if !turned_away(a, from) {
        let c = choose|c: Client|
            #[trigger] is_sender(a, from, spawn_x, c) && heard(
                c,
                m,
                a.server_tick,
                b.clients@[f],
            );
        assert(is_sender(a, from, spawn_x, c) && heard(c, m, a.server_tick, b.clients@[f]));
        law_the_sender_is_who_has_the_address(a, from, spawn_x, c, i);
        if a.clients@[i].addr == from {
            if f < i {
                assert(a.clients@[f].addr != a.clients@[i].addr);
            }
            assert(f == i);
        }
    } else if a.clients@[i].addr == from {
        assert(f <= i);
    }
}

/// Every waiting input is simulated with the host's respawn point, each in its place.
pub proof fn law_every_input_is_placed(
    inbox: Seq<(u32, Input)>,
    slot: i32,
    p: (u32, u32, u32),
    ins: Seq<Input>,
    k: int,
)
    requires
        all_placed(inbox, slot, p, ins),
        0 <= k < inbox.len(),
    ensures
        ins.len() == inbox.len(),
        is_placed(inbox[k].1, slot, p, ins[k]),
{
    assert(is_placed(inbox[k].1, slot, p, ins[k]));
}

/// While there are visuals they go out on every tick.
pub proof fn law_visuals_go_out_while_there_are_any(s: Session)
    ensures
        s.fx@.len() > 0 ==> fx_due(s),
        !s.last_fx_empty ==> fx_due(s),
        s.fx@.len() == 0 && s.last_fx_empty ==> !fx_due(s),
{
}

/// Whoever hosts is counted as 0 unless the host is dedicated, and every client by its id.
pub proof fn law_everyone_present_is_counted(s: Session, i: int)
    requires
        0 <= i < s.clients@.len(),
    ensures
        s.dedicated ==> host_ids(s).len() == s.clients@.len() && host_ids(s)[i]
            == s.clients@[i].id,
        !s.dedicated ==> host_ids(s).len() == s.clients@.len() + 1 && host_ids(s)[0] == 0
            && host_ids(s)[i + 1] == s.clients@[i].id,
{
}

/// What is told of datagrams and of the history is everything they hold, in their order.
pub proof fn law_datagrams_are_told_whole(v: Seq<(Peer, Vec<u8>)>, r: LagRecord, i: int)
    ensures
        grams(v).len() == v.len(),
        0 <= i < v.len() ==> grams(v)[i].0 == v[i].0 && grams(v)[i].1 == v[i].1@,
        lag_view(r).0 == r.id,
        lag_view(r).1 == r.pos@,
        r.size matches Some(z) ==> lag_view(r).2 == Some(z@),
        r.size is None ==> lag_view(r).2 is None,
{
}

/// One datagram goes to every client once, in their order.
pub proof fn law_everyone_is_sent_the_same(cs: Seq<Client>, b: Seq<u8>, i: int)
    requires
        0 <= i < cs.len(),
    ensures
        to_all(cs, b).len() == cs.len(),
        to_all(cs, b)[i].0 == cs[i].addr,
        to_all(cs, b)[i].1 == b,
{
}

/// A snapshot shows the players it shows in the order of the roster.
pub proof fn law_players_are_sent_in_order(
    last: Map<u32, Player>,
    all: Seq<(u32, Player)>,
    p: (u32, Player),
    near: Seq<bool>,
    moved: Seq<bool>,
    cid: u32,
    keyframe: bool,
)
    ensures
        ({
            let less = pick(last, all, near, moved, cid, keyframe).0;
            let more = pick(last, all.push(p), near, moved, cid, keyframe).0;
            more == less || more == less + seq![p]
        }),
{
    assert(all.push(p).drop_last() =~= all);
}

} // verus!
