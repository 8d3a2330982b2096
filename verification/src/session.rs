//! One multiplayer session, host or client: who is in it, what each of them
//! carries, and what is queued to be sent or drawn.
//!
//! The session owns no socket, no clock and no gameplay. Whoever drives it hands
//! it datagrams and the game's simulation step, and sends what it hands back.
//! Floats are carried as their 32-bit patterns.
use vstd::prelude::*;
use std::collections::HashMap;
use crate::wire::{
    Boom, FireMsg, InputMsg, LaunchMsg, Player, ShotFx, INPUT_MAX, META_LEN, NAME_MAX,
    OBJ_WORDS, STATE_MAX, TAG_LEAVE, encode_fire, encode_input, encode_projectile,
};
use crate::wire;

verus! {

/// Ids from here on belong to bots, which replicate as ordinary players.
pub const BOT_ID_BASE: u32 = 1000;

/// Lag-compensation ids from here on belong to world objects.
pub const OBJ_ID_BASE: u64 = 2000;

/// The bits of 0.45, the radius of an object that was given no size.
pub const OBJ_RADIUS: u32 = 0x3ee6_6666;

/// The bits of 1.0.
pub const ONE: u32 = 0x3f80_0000;

pub type Input = [u32; INPUT_MAX];

pub type State = [u32; STATE_MAX];

/// The address a datagram came from or goes to.
#[derive(Clone, Copy, PartialEq, Eq, Structural)]
pub struct Peer {
    pub v6: bool,
    pub ip: u128,
    pub port: u16,
    pub flow: u32,
    pub scope: u32,
}

/// A client as its host sees it.
pub struct Client {
    pub addr: Peer,
    pub id: u32,
    pub state: Player,
    /// Inputs waiting to be simulated, oldest first.
    pub inbox: Vec<(u32, Input)>,
    pub acked_seq: u32,
    /// The host tick at which it was last heard.
    pub last_seen: u64,
    /// What it was last sent of each player.
    pub last_sent: HashMap<u32, Player>,
    /// Metadata slots the host has taken over.
    pub meta_owned: [bool; META_LEN],
}

/// Another player as a client sees it.
#[derive(Clone, Copy)]
pub struct Remote {
    pub last: Player,
    pub last_seen: u32,
}

/// A client's shot that the host has validated.
#[derive(Clone, Copy)]
pub struct ServerHit {
    pub shooter: u32,
    pub victim: i64,
    pub point: [u32; 3],
    pub weapon: u8,
}

/// A client's launch that the host has yet to fly.
#[derive(Clone, Copy)]
pub struct ServerProjectile {
    pub shooter: u32,
    pub kind: u8,
    pub origin: [u32; 3],
    pub vel: [u32; 3],
}

pub struct Session {
    pub is_server: bool,
    pub server_addr: Option<Peer>,
    pub my_id: u32,
    /// The session clock in seconds.
    pub tick: u32,
    pub ids: Vec<u32>,
    pub state_len: usize,
    pub input_len: usize,
    pub clients: Vec<Client>,
    pub local: Player,
    pub bots: Vec<Player>,
    pub objects: Vec<[u32; OBJ_WORDS]>,
    /// Radius and half height of each object, for the host's own hit tests.
    pub sizes: Vec<[u32; 2]>,
    pub last_sent_objects: Vec<[u32; OBJ_WORDS]>,
    pub fx: Vec<[u32; 4]>,
    pub last_fx_empty: bool,
    pub kill_out: Vec<(u32, u32)>,
    pub kill_in: Vec<(u32, u32)>,
    pub shots_out: Vec<ShotFx>,
    pub shots_in: Vec<ShotFx>,
    pub booms_out: Vec<Boom>,
    pub booms_in: Vec<Boom>,
    pub next_id: u32,
    pub server_tick: u64,
    pub server_hits: Vec<ServerHit>,
    pub server_projectiles: Vec<ServerProjectile>,
    pub pred: Player,
    /// Inputs sent but not yet acknowledged, oldest first.
    pub pending: Vec<(u32, Input)>,
    pub next_seq: u32,
    pub last_server_tick: u32,
    pub got_snap: bool,
    pub last_snap_tick: u32,
    pub last_snap_players: usize,
    pub remotes: Vec<(u32, Remote)>,
    pub last_hit: (i64, [u32; 3]),
    pub spawn: [u32; 3],
    /// First of the three input slots that hold the respawn point, or negative.
    pub spawn_in: i32,
    pub local_meta: [u32; META_LEN],
    pub local_name: [u8; NAME_MAX],
    pub max_clients: usize,
    pub rejected: bool,
    pub dedicated: bool,
}

/// `tr` is a run of the simulation from `s0` over `ins`: each state is one the
/// step may return for the state and input before it.
pub open spec fn is_run<F: Fn(State, Input) -> State>(
    sim: F,
    s0: State,
    ins: Seq<Input>,
    tr: Seq<State>,
) -> bool {
    &&& tr.len() == ins.len() + 1
    &&& tr[0] == s0
    &&& forall|k: int| 0 <= k < ins.len() ==> sim.ensures((tr[k], #[trigger] ins[k]), tr[k + 1])
}

/// Running the simulation over `ins` from `s0` may end in `s1`.
pub open spec fn sim_runs<F: Fn(State, Input) -> State>(
    sim: F,
    s0: State,
    ins: Seq<Input>,
    s1: State,
) -> bool {
    exists|tr: Seq<State>| #[trigger] is_run(sim, s0, ins, tr) && tr.last() == s1
}

/// The first index from `i` on whose client has address `a`, or the length.
pub open spec fn find_addr(cs: Seq<Client>, a: Peer, i: int) -> int
    decreases cs.len() - i,
{
    if i >= cs.len() || cs[i].addr == a {
        i
    } else {
        find_addr(cs, a, i + 1)
    }
}

/// The first index from `i` on whose client has id `id`, or the length.
pub open spec fn find_id(cs: Seq<Client>, id: u32, i: int) -> int
    decreases cs.len() - i,
{
    if i >= cs.len() || cs[i].id == id {
        i
    } else {
        find_id(cs, id, i + 1)
    }
}

/// The first index from `i` on whose remote has id `id`, or the length.
pub open spec fn find_remote(rs: Seq<(u32, Remote)>, id: u32, i: int) -> int
    decreases rs.len() - i,
{
    if i >= rs.len() || rs[i].0 == id {
        i
    } else {
        find_remote(rs, id, i + 1)
    }
}

/// Bytes of a name up to its first zero.
pub open spec fn name_end(name: Seq<u8>, i: int) -> int
    decreases name.len() - i,
{
    if i >= name.len() || name[i] == 0 {
        i
    } else {
        name_end(name, i + 1)
    }
}

/// `name` holds `bytes`, cut to its width and padded with zeros.
pub open spec fn is_name(name: Seq<u8>, bytes: Seq<u8>) -> bool {
    name == Seq::new(
        NAME_MAX as nat,
        |i: int|
            if i < bytes.len() {
                bytes[i]
            } else {
                0
            },
    )
}

/// `blob` holds the first `n` of the floats given, the rest of it zero.
pub open spec fn is_blob(blob: Input, input: Seq<u32>, n: int) -> bool {
    blob@ == wire::zero_ext(
        if input.len() <= n {
            input
        } else {
            input.take(n)
        },
        INPUT_MAX as int,
    )
}

/// Sequence numbers rise and stay below the next one.
pub open spec fn pending_ok(pending: Seq<(u32, Input)>, next_seq: u32) -> bool {
    &&& forall|i: int, j: int| 0 <= i < j < pending.len() ==> pending[i].0 < pending[j].0
    &&& forall|i: int| 0 <= i < pending.len() ==> (#[trigger] pending[i]).0 < next_seq
}

/// No two clients share an address or an id, and every id was handed out.
pub open spec fn clients_ok(cs: Seq<Client>, next_id: u32) -> bool {
    &&& forall|i: int, j: int|
        #![trigger cs[i], cs[j]]
        0 <= i < j < cs.len() ==> cs[i].addr != cs[j].addr && cs[i].id != cs[j].id
    &&& forall|i: int| 0 <= i < cs.len() ==> 1 <= (#[trigger] cs[i]).id < next_id
}

pub fn padded_name(bytes: &[u8]) -> (r: [u8; NAME_MAX])
    ensures
        is_name(r@, bytes@),
{
    let mut r = [0u8; 20];
    let mut i: usize = 0;
    while i < NAME_MAX && i < bytes.len()
        invariant
            i <= NAME_MAX,
            i <= bytes@.len(),
            forall|k: int|
                0 <= k < NAME_MAX ==> #[trigger] r@[k] == (if k < i {
                    bytes@[k]
                } else {
                    0
                }),
        decreases NAME_MAX - i,
    {
        r[i] = bytes[i];
        i += 1;
    }
    assert(r@ =~= Seq::new(
        NAME_MAX as nat,
        |i: int|
            if i < bytes@.len() {
                bytes@[i]
            } else {
                0
            },
    ));
    r
}

fn blob_of(input: &[u32], n: usize) -> (r: Input)
    requires
        n <= INPUT_MAX,
    ensures
        is_blob(r, input@, n as int),
{
    let mut r = [0u32; 24];
    let mut i: usize = 0;
    while i < n && i < input.len()
        invariant
            i <= n <= INPUT_MAX,
            i <= input@.len(),
            forall|k: int|
                0 <= k < INPUT_MAX ==> #[trigger] r@[k] == (if k < i {
                    input@[k]
                } else {
                    0
                }),
        decreases n - i,
    {
        r[i] = input[i];
        i += 1;
    }
    assert(r@ =~= wire::zero_ext(
        if input@.len() <= n {
            input@
        } else {
            input@.take(n as int)
        },
        INPUT_MAX as int,
    ));
    r
}

impl Session {
    pub open spec fn wf(self) -> bool {
        &&& 4 <= self.state_len <= STATE_MAX
        &&& 1 <= self.input_len <= INPUT_MAX
        &&& self.max_clients >= 1
        &&& self.next_id >= 1
        &&& clients_ok(self.clients@, self.next_id)
        &&& pending_ok(self.pending@, self.next_seq)
        &&& self.bots@.len() <= u32::MAX - BOT_ID_BASE
    }

    /// A session in which nothing has happened yet.
    pub open spec fn is_fresh(self, is_server: bool, server_addr: Option<Peer>) -> bool {
        &&& self.is_server == is_server
        &&& self.server_addr == server_addr
        &&& self.my_id == 0
        &&& self.tick == 0
        &&& self.ids@ == seq![0u32]
        &&& self.state_len == 4
        &&& self.input_len == 8
        &&& self.clients@.len() == 0
        &&& self.local.is_blank()
        &&& self.bots@.len() == 0
        &&& self.objects@.len() == 0
        &&& self.sizes@.len() == 0
        &&& self.last_sent_objects@.len() == 0
        &&& self.fx@.len() == 0
        &&& self.last_fx_empty
        &&& self.kill_out@.len() == 0
        &&& self.kill_in@.len() == 0
        &&& self.shots_out@.len() == 0
        &&& self.shots_in@.len() == 0
        &&& self.booms_out@.len() == 0
        &&& self.booms_in@.len() == 0
        &&& self.next_id == 1
        &&& self.server_tick == 0
        &&& self.server_hits@.len() == 0
        &&& self.server_projectiles@.len() == 0
        &&& self.pred.is_blank()
        &&& self.pending@.len() == 0
        &&& self.next_seq == 1
        &&& self.last_server_tick == 0
        &&& !self.got_snap
        &&& self.last_snap_tick == 0
        &&& self.last_snap_players == 0
        &&& self.remotes@.len() == 0
        &&& self.last_hit.0 == -1
        &&& self.last_hit.1@ == seq![0u32, 0, 0]
        &&& self.spawn@ == seq![0u32, 0, 0]
        &&& self.spawn_in == -1
        &&& forall|i: int| 0 <= i < META_LEN ==> #[trigger] self.local_meta@[i] == 0
        &&& forall|i: int| 0 <= i < NAME_MAX ==> #[trigger] self.local_name@[i] == 0
        &&& self.max_clients == 8
        &&& !self.rejected
        &&& !self.dedicated
    }

    /// A hosting session.
    pub fn host() -> (s: Session)
        ensures
            s.is_fresh(true, None),
            s.wf(),
    {
        Session::base(true, None)
    }

    /// A session that joins the host at `addr`.
    pub fn join(addr: Peer) -> (s: Session)
        ensures
            s.is_fresh(false, Some(addr)),
            s.wf(),
    {
        Session::base(false, Some(addr))
    }

    fn base(is_server: bool, server_addr: Option<Peer>) -> (s: Session)
        ensures
            s.is_fresh(is_server, server_addr),
            s.wf(),
    {
        let mut ids: Vec<u32> = Vec::new();
        ids.push(0);
        let s = Session {
            is_server,
            server_addr,
            my_id: 0,
            tick: 0,
            ids,
            state_len: 4,
            input_len: 8,
            clients: Vec::new(),
            local: Player::spawn(),
            bots: Vec::new(),
            objects: Vec::new(),
            sizes: Vec::new(),
            last_sent_objects: Vec::new(),
            fx: Vec::new(),
            last_fx_empty: true,
            kill_out: Vec::new(),
            kill_in: Vec::new(),
            shots_out: Vec::new(),
            shots_in: Vec::new(),
            booms_out: Vec::new(),
            booms_in: Vec::new(),
            next_id: 1,
            server_tick: 0,
            server_hits: Vec::new(),
            server_projectiles: Vec::new(),
            pred: Player::spawn(),
            pending: Vec::new(),
            next_seq: 1,
            last_server_tick: 0,
            got_snap: false,
            last_snap_tick: 0,
            last_snap_players: 0,
            remotes: Vec::new(),
            last_hit: (-1, [0u32; 3]),
            spawn: [0u32; 3],
            spawn_in: -1,
            local_meta: [0u32; 18],
            local_name: [0u8; 20],
            max_clients: 8,
            rejected: false,
            dedicated: false,
        };
        assert(s.last_hit.1@ =~= seq![0u32, 0, 0]);
        assert(s.spawn@ =~= seq![0u32, 0, 0]);
        assert(s.ids@ =~= seq![0u32]);
        s
    }

    /// How many floats of the state replicate and how many an input holds, each
    /// brought into the range the wire carries.
    pub fn set_sim(&mut self, state_len: usize, input_len: usize)
        requires
            old(self).wf(),
        ensures
            final(self).wf(),
            *final(self) == (Session {
                state_len: (if state_len < 4 {
                    4
                } else if state_len > STATE_MAX {
                    STATE_MAX
                } else {
                    state_len
                }),
                input_len: (if input_len < 1 {
                    1
                } else if input_len > INPUT_MAX {
                    INPUT_MAX
                } else {
                    input_len
                }),
                ..*old(self)
            }),
    {
        self.state_len = if state_len < 4 {
            4
        } else if state_len > STATE_MAX {
            STATE_MAX
        } else {
            state_len
        };
        self.input_len = if input_len < 1 {
            1
        } else if input_len > INPUT_MAX {
            INPUT_MAX
        } else {
            input_len
        };
    }

    /// The most clients the host will admit, never fewer than one.
    pub fn set_max_clients(&mut self, n: usize)
        requires
            old(self).wf(),
        ensures
            final(self).wf(),
            *final(self) == (Session {
                max_clients: (if n < 1 {
                    1
                } else {
                    n
                }),
                ..*old(self)
            }),
    {
        self.max_clients = if n < 1 {
            1
        } else {
            n
        };
    }

    /// The hosting machine does not play: no player 0.
    pub fn set_dedicated(&mut self)
        requires
            old(self).wf(),
        ensures
            final(self).wf(),
            *final(self) == (Session { dedicated: true, ..*old(self) }),
    {
        self.dedicated = true;
    }

    pub fn rejected(&self) -> (r: bool)
        ensures
            r == self.rejected,
    {
        self.rejected
    }

    /// In contact: always so on the host; on a client once a snapshot came and
    /// `fresh`, which says that the last one came less than five seconds ago.
    pub fn connected(&self, fresh: bool) -> (r: bool)
        ensures
            r == (self.is_server || (self.got_snap && fresh)),
    {
        self.is_server || (self.got_snap && fresh)
    }

    /// Where the local player stands now and where joining players start.
    pub fn set_spawn(&mut self, x: u32, y: u32, z: u32)
        requires
            old(self).wf(),
        ensures
            final(self).wf(),
            final(self).spawn@ == seq![x, y, z],
            old(self).is_server ==> final(self).local.s@ == old(self).local.s@.update(0, x).update(
                1,
                y,
            ).update(2, z) && final(self).local == (Player {
                s: final(self).local.s,
                ..old(self).local
            }) && *final(self) == (Session {
                spawn: final(self).spawn,
                local: final(self).local,
                ..*old(self)
            }),
            !old(self).is_server ==> final(self).pred.s@ == old(self).pred.s@.update(0, x).update(
                1,
                y,
            ).update(2, z) && final(self).pred == (Player {
                s: final(self).pred.s,
                ..old(self).pred
            }) && *final(self) == (Session {
                spawn: final(self).spawn,
                pred: final(self).pred,
                ..*old(self)
            }),
    {
        self.spawn = [x, y, z];
        assert(self.spawn@ =~= seq![x, y, z]);
        if self.is_server {
            self.local.s[0] = x;
            self.local.s[1] = y;
            self.local.s[2] = z;
        } else {
            self.pred.s[0] = x;
            self.pred.s[1] = y;
            self.pred.s[2] = z;
        }
    }

    /// Submit this frame's input. The host steps its own player; a client steps
    /// its prediction, keeps the input until it is acknowledged, and has a
    /// datagram for the host. Returns the sequence number (0 on the host).
    pub fn send_input<F: Fn(State, Input) -> State>(&mut self, input: &[u32], sim: F) -> (r: (
        u32,
        Option<Vec<u8>>,
    ))
        requires
            old(self).wf(),
            !old(self).is_server ==> old(self).next_seq < u32::MAX,
            forall|s: State, i: Input| sim.requires((s, i)),
        ensures
            final(self).wf(),
            old(self).is_server ==> {
                &&& r.0 == 0
                &&& r.1 is None
                &&& exists|blob: Input|
                    #![trigger is_blob(blob, input@, old(self).input_len as int)]
                    is_blob(blob, input@, old(self).input_len as int) && sim.ensures(
                        (old(self).local.s, blob),
                        final(self).local.s,
                    )
                &&& *final(self) == (Session {
                    local: Player {
                        s: final(self).local.s,
                        meta: old(self).local_meta,
                        name: old(self).local_name,
                    },
                    ..*old(self)
                })
            },
            !old(self).is_server ==> {
                &&& r.0 == old(self).next_seq
                &&& *final(self) == (Session {
                    next_seq: (old(self).next_seq + 1) as u32,
                    pending: final(self).pending,
                    pred: Player {
                        s: final(self).pred.s,
                        name: old(self).local_name,
                        ..old(self).pred
                    },
                    ..*old(self)
                })
                &&& final(self).pending@.len() == old(self).pending@.len() + 1
                &&& final(self).pending@.drop_last() == old(self).pending@
                &&& final(self).pending@.last().0 == r.0
                &&& is_blob(final(self).pending@.last().1, input@, old(self).input_len as int)
                &&& sim.ensures(
                    (old(self).pred.s, final(self).pending@.last().1),
                    final(self).pred.s,
                )
                &&& r.1 is Some == old(self).server_addr is Some
                &&& r.1 matches Some(pkt) ==> pkt@ == wire::input_bytes(
                    (InputMsg {
                        seq: r.0,
                        blob: final(self).pending@.last().1,
                        meta: old(self).local_meta,
                        name: old(self).local_name,
                        state: final(self).pred.s,
                    }),
                    old(self).input_len as int,
                    old(self).state_len as int,
                )
            },
    {
        let blob = blob_of(input, self.input_len);
        assert(is_blob(blob, input@, old(self).input_len as int));
        if self.is_server {
            self.local.s = sim(self.local.s, blob);
            self.local.meta = self.local_meta;
            self.local.name = self.local_name;
            (0, None)
        } else {
            let seq: u32 = self.next_seq;
            self.next_seq = self.next_seq + 1;
            self.pred.s = sim(self.pred.s, blob);
            self.pred.name = self.local_name;
            self.pending.push((seq, blob));
            assert(self.pending@.drop_last() =~= old(self).pending@);
            let pkt = match self.server_addr {
                Some(_) => {
                    let m = InputMsg {
                        seq,
                        blob,
                        meta: self.local_meta,
                        name: self.local_name,
                        state: self.pred.s,
                    };
                    Some(encode_input(&m, self.input_len, self.state_len))
                },
                None => None,
            };
            (seq, pkt)
        }
    }

    /// Fire a ray. On the host, `hit` is what it met; on a client the datagram
    /// carries the tick the shooter was looking at.
    pub fn fire(
        &mut self,
        o: [u32; 3],
        d: [u32; 3],
        weapon: u8,
        hit: Option<(i64, [u32; 3])>,
    ) -> (r: Option<Vec<u8>>)
        requires
            old(self).wf(),
        ensures
            final(self).wf(),
            old(self).is_server ==> {
                &&& r is None
                &&& *final(self) == (Session { last_hit: final(self).last_hit, ..*old(self) })
                &&& hit matches Some(h) ==> final(self).last_hit == h
                &&& hit is None ==> final(self).last_hit.0 == -1 && final(self).last_hit.1@
                    == seq![0u32, 0, 0]
            },
            !old(self).is_server ==> {
                &&& *final(self) == *old(self)
                &&& r is Some == old(self).server_addr is Some
                &&& r matches Some(pkt) ==> pkt@ == wire::fire_bytes(
                    (FireMsg {
                        view_tick: (if old(self).last_server_tick >= 2 {
                            (old(self).last_server_tick - 2) as u32
                        } else {
                            0
                        }),
                        o,
                        d,
                        weapon,
                    }),
                )
            },
    {
        if self.is_server {
            self.last_hit = match hit {
                Some(h) => h,
                None => (-1, [0u32; 3]),
            };
            assert(hit is None ==> self.last_hit.1@ =~= seq![0u32, 0, 0]);
            None
        } else {
            match self.server_addr {
                Some(_) => {
                    let view_tick: u32 = if self.last_server_tick >= 2 {
                        self.last_server_tick - 2
                    } else {
                        0
                    };
                    Some(encode_fire(&FireMsg { view_tick, o, d, weapon }))
                },
                None => None,
            }
        }
    }

    /// The datagrams that tell the host we are leaving: three, since one may be
    /// lost. None on the host.
    pub fn leave(&self) -> (r: Vec<Vec<u8>>)
        ensures
            r@.len() == (if self.server_addr is Some {
                3nat
            } else {
                0nat
            }),
            forall|i: int| 0 <= i < r@.len() ==> (#[trigger] r@[i])@ == seq![TAG_LEAVE],
    {
        let mut out: Vec<Vec<u8>> = Vec::new();
        if self.server_addr.is_some() {
            let mut i: usize = 0;
            while i < 3
                invariant
                    i <= 3,
                    out@.len() == i,
                    forall|k: int| 0 <= k < i ==> (#[trigger] out@[k])@ == seq![TAG_LEAVE],
                decreases 3 - i,
            {
                let mut b: Vec<u8> = Vec::new();
                b.push(TAG_LEAVE);
                assert(b@ =~= seq![TAG_LEAVE]);
                out.push(b);
                i += 1;
            }
        }
        out
    }

    /// A client launched a projectile: the datagram that says so.
    pub fn projectile_intent(&self, kind: u8, o: [u32; 3], v: [u32; 3]) -> (r: Option<Vec<u8>>)
        ensures
            r is Some == (!self.is_server && self.server_addr is Some),
            r matches Some(pkt) ==> pkt@ == wire::projectile_bytes(
                (LaunchMsg { kind, origin: o, vel: v }),
            ),
    {
        if self.is_server || self.server_addr.is_none() {
            return None;
        }
        Some(encode_projectile(&LaunchMsg { kind, origin: o, vel: v }))
    }

    pub fn hit_player(&self) -> (r: i64)
        ensures
            r == self.last_hit.0,
    {
        self.last_hit.0
    }

    pub fn hit_point(&self) -> (r: [u32; 3])
        ensures
            r == self.last_hit.1,
    {
        self.last_hit.1
    }

    pub fn my_id(&self) -> (r: u32)
        ensures
            r == self.my_id,
    {
        self.my_id
    }

    pub fn is_server(&self) -> (r: bool)
        ensures
            r == self.is_server,
    {
        self.is_server
    }

    pub fn player_count(&self) -> (r: usize)
        ensures
            r == self.ids@.len(),
    {
        self.ids.len()
    }

    /// The `i`-th participant, or -1.
    pub fn player_id_at(&self, i: usize) -> (r: i64)
        ensures
            r == (if i < self.ids@.len() {
                self.ids@[i as int] as int
            } else {
                -1
            }),
    {
        if i < self.ids.len() {
            self.ids[i] as i64
        } else {
            -1
        }
    }

    /// The player a session knows under an id: its own, a client's or a remote's,
    /// or `None`.
    pub open spec fn known(self, id: u32) -> Option<Player> {
        let c = find_id(self.clients@, id, 0);
        let r = find_remote(self.remotes@, id, 0);
        if self.is_server {
            if id == 0 {
                Some(self.local)
            } else if c < self.clients@.len() {
                Some(self.clients@[c].state)
            } else {
                None
            }
        } else if id == self.my_id {
            Some(self.pred)
        } else if r < self.remotes@.len() {
            Some(self.remotes@[r].1.last)
        } else {
            None
        }
    }

    fn client_index(&self, id: u32) -> (r: usize)
        ensures
            r == find_id(self.clients@, id, 0),
            0 <= r <= self.clients@.len(),
    {
        let mut i: usize = 0;
        while i < self.clients.len() && self.clients[i].id != id
            invariant
                i <= self.clients@.len(),
                find_id(self.clients@, id, 0) == find_id(self.clients@, id, i as int),
            decreases self.clients@.len() - i,
        {
            i += 1;
        }
        i
    }

    /// The index of remote `id`, or the number of remotes.
    pub fn remote_index(&self, id: u32) -> (r: usize)
        ensures
            r == find_remote(self.remotes@, id, 0),
            0 <= r <= self.remotes@.len(),
    {
        let mut i: usize = 0;
        while i < self.remotes.len() && self.remotes[i].0 != id
            invariant
                i <= self.remotes@.len(),
                find_remote(self.remotes@, id, 0) == find_remote(self.remotes@, id, i as int),
            decreases self.remotes@.len() - i,
        {
            i += 1;
        }
        i
    }

    /// The player under `id`; a blank one where the id is unknown.
    pub fn player_blob(&self, id: u32) -> (p: Player)
        ensures
            self.known(id) matches Some(q) ==> p == q,
            self.known(id) is None ==> p.is_blank(),
    {
        if self.is_server {
            if id == 0 {
                return self.local;
            }
            let i: usize = self.client_index(id);
            if i < self.clients.len() {
                self.clients[i].state
            } else {
                Player::spawn()
            }
        } else if id == self.my_id {
            self.pred
        } else {
            let i: usize = self.remote_index(id);
            if i < self.remotes.len() {
                self.remotes[i].1.last
            } else {
                Player::spawn()
            }
        }
    }

    /// State word `i` of a player, 0 where there is none.
    pub fn state(&self, id: u32, i: usize) -> (r: u32)
        ensures
            r == (match self.known(id) {
                Some(p) => if i < STATE_MAX {
                    p.s@[i as int]
                } else {
                    0
                },
                None => 0,
            }),
    {
        if i >= STATE_MAX {
            return 0;
        }
        self.player_blob(id).s[i]
    }

    /// State word `i` of the local player.
    pub fn local_state(&self, i: usize) -> (r: u32)
        ensures
            r == (match self.known(self.my_id) {
                Some(p) => if i < STATE_MAX {
                    p.s@[i as int]
                } else {
                    0
                },
                None => 0,
            }),
    {
        self.state(self.my_id, i)
    }

    /// Set a slot of the metadata that goes out with the local player.
    pub fn set_meta(&mut self, slot: usize, v: u32)
        requires
            old(self).wf(),
        ensures
            final(self).wf(),
            *final(self) == (Session { local_meta: final(self).local_meta, ..*old(self) }),
            slot < META_LEN ==> final(self).local_meta@ == old(self).local_meta@.update(
                slot as int,
                v,
            ),
            slot >= META_LEN ==> *final(self) == *old(self),
    {
        if slot < META_LEN {
            self.local_meta[slot] = v;
        }
    }

    /// Metadata slot of a player, 0 where there is none.
    pub fn meta(&self, id: u32, slot: usize) -> (r: u32)
        ensures
            r == (match self.known(id) {
                Some(p) => if slot < META_LEN {
                    p.meta@[slot as int]
                } else {
                    0
                },
                None => 0,
            }),
    {
        if slot >= META_LEN {
            return 0;
        }
        self.player_blob(id).meta[slot]
    }

    /// Host: take a metadata slot of a player over and set it.
    pub fn set_player_meta(&mut self, id: u32, slot: usize, v: u32)
        requires
            old(self).wf(),
        ensures
            final(self).wf(),
            ({
                let c = find_id(old(self).clients@, id, 0);
                if slot >= META_LEN || !old(self).is_server || (id != 0 && c
                    >= old(self).clients@.len()) {
                    *final(self) == *old(self)
                } else if id == 0 {
                    &&& *final(self) == (Session {
                        local: Player { meta: final(self).local.meta, ..old(self).local },
                        ..*old(self)
                    })
                    &&& final(self).local.meta@ == old(self).local.meta@.update(slot as int, v)
                } else {
                    let a = old(self).clients@[c];
                    let b = final(self).clients@[c];
                    &&& *final(self) == (Session { clients: final(self).clients, ..*old(self) })
                    &&& final(self).clients@ == old(self).clients@.update(c, b)
                    &&& b == (Client {
                        state: Player { meta: b.state.meta, ..a.state },
                        meta_owned: b.meta_owned,
                        ..a
                    })
                    &&& b.state.meta@ == a.state.meta@.update(slot as int, v)
                    &&& b.meta_owned@ == a.meta_owned@.update(slot as int, true)
                }
            }),
    {
        if slot >= META_LEN || !self.is_server {
            return;
        }
        if id == 0 {
            self.local.meta[slot] = v;
        } else {
            let i: usize = self.client_index(id);
            if i < self.clients.len() {
                self.clients[i].state.meta[slot] = v;
                self.clients[i].meta_owned[slot] = true;
                assert(self.clients@ =~= old(self).clients@.update(
                    i as int,
                    self.clients@[i as int],
                ));
            }
        }
    }

    /// Set the local player's display name.
    pub fn set_name(&mut self, bytes: &[u8])
        requires
            old(self).wf(),
        ensures
            final(self).wf(),
            *final(self) == (Session { local_name: final(self).local_name, ..*old(self) }),
            is_name(final(self).local_name@, bytes@),
    {
        self.local_name = padded_name(bytes);
    }

    /// Bytes in a player's name.
    pub fn name_len(&self, id: u32) -> (r: i64)
        ensures
            r == (match self.known(id) {
                Some(p) => name_end(p.name@, 0),
                None => 0,
            }),
            0 <= r <= NAME_MAX,
    {
        let p = self.player_blob(id);
        let mut i: usize = 0;
        while i < NAME_MAX && p.name[i] != 0
            invariant
                i <= NAME_MAX,
                name_end(p.name@, 0) == name_end(p.name@, i as int),
                i > 0 ==> p.name@[0] != 0,
            decreases NAME_MAX - i,
        {
            i += 1;
        }
        i as i64
    }

    /// Byte `i` of a player's name, 0 past its end.
    pub fn name_char(&self, id: u32, i: usize) -> (r: i64)
        ensures
            r == (match self.known(id) {
                Some(p) => if i < NAME_MAX {
                    p.name@[i as int] as int
                } else {
                    0
                },
                None => 0,
            }),
    {
        if i >= NAME_MAX {
            return 0;
        }
        self.player_blob(id).name[i] as i64
    }
}

/// A search for an address finds the first client that has it, and says the length where
/// there is none.
pub proof fn law_addresses_are_found_first(cs: Seq<Client>, a: Peer, i: int)
    requires
        0 <= i <= cs.len(),
    ensures
        i <= find_addr(cs, a, i) <= cs.len(),
        find_addr(cs, a, i) < cs.len() ==> cs[find_addr(cs, a, i)].addr == a,
        forall|k: int| i <= k < find_addr(cs, a, i) ==> (#[trigger] cs[k]).addr != a,
    decreases cs.len() - i,
{
    if i < cs.len() && cs[i].addr != a {
        law_addresses_are_found_first(cs, a, i + 1);
    }
}

/// A search for an id finds the first client that has it, and says the length where there
/// is none.
pub proof fn law_clients_are_found_first(cs: Seq<Client>, id: u32, i: int)
    requires
        0 <= i <= cs.len(),
    ensures
        i <= find_id(cs, id, i) <= cs.len(),
        find_id(cs, id, i) < cs.len() ==> cs[find_id(cs, id, i)].id == id,
        forall|k: int| i <= k < find_id(cs, id, i) ==> (#[trigger] cs[k]).id != id,
    decreases cs.len() - i,
{
    if i < cs.len() && cs[i].id != id {
        law_clients_are_found_first(cs, id, i + 1);
    }
}

/// A search for an id finds the first remote that has it, and says the length where there
/// is none.
pub proof fn law_remotes_are_found_first(rs: Seq<(u32, Remote)>, id: u32, i: int)
    requires
        0 <= i <= rs.len(),
    ensures
        i <= find_remote(rs, id, i) <= rs.len(),
        find_remote(rs, id, i) < rs.len() ==> rs[find_remote(rs, id, i)].0 == id,
        forall|k: int| i <= k < find_remote(rs, id, i) ==> (#[trigger] rs[k]).0 != id,
    decreases rs.len() - i,
{
    if i < rs.len() && rs[i].0 != id {
        law_remotes_are_found_first(rs, id, i + 1);
    }
}

/// The host knows its own player as 0 and every client's by its id, and nobody else.
pub proof fn law_the_host_knows_its_clients(s: Session, id: u32, i: int)
    requires
        s.is_server,
        s.wf(),
    ensures
        s.known(0) == Some(s.local),
        0 <= i < s.clients@.len() ==> s.known(s.clients@[i].id) == Some(s.clients@[i].state),
        id != 0 && (forall|k: int|
            0 <= k < s.clients@.len() ==> (#[trigger] s.clients@[k]).id != id) ==> s.known(id)
            is None,
{
    let cs = s.clients@;
    law_clients_are_found_first(cs, id, 0);
    if 0 <= i < cs.len() {
        law_clients_are_found_first(cs, cs[i].id, 0);
        let k = find_id(cs, cs[i].id, 0);
        if k < i {
            assert(cs[k].id != cs[i].id);
        }
        assert(k == i);
    }
}

/// A client knows itself by what it predicts and every remote by what it last heard of
/// it, and nobody else.
pub proof fn law_a_client_knows_its_remotes(s: Session, id: u32, i: int)
    requires
        !s.is_server,
    ensures
        s.known(s.my_id) == Some(s.pred),
        0 <= i < s.remotes@.len() && s.remotes@[i].0 != s.my_id && (forall|k: int|
            0 <= k < i ==> (#[trigger] s.remotes@[k]).0 != s.remotes@[i].0) ==> s.known(
            s.remotes@[i].0,
        ) == Some(s.remotes@[i].1.last),
        id != s.my_id && (forall|k: int|
            0 <= k < s.remotes@.len() ==> (#[trigger] s.remotes@[k]).0 != id) ==> s.known(id)
            is None,
{
    let rs = s.remotes@;
    law_remotes_are_found_first(rs, id, 0);
    if 0 <= i < rs.len() {
        law_remotes_are_found_first(rs, rs[i].0, 0);
    }
}

/// A name without zeros is read back as it was given, cut to the width of a name.
pub proof fn law_names_are_read_back(name: Seq<u8>, bytes: Seq<u8>)
    requires
        is_name(name, bytes),
        forall|i: int| 0 <= i < bytes.len() ==> #[trigger] bytes[i] != 0,
    ensures
        name.take(name_end(name, 0)) == bytes.take(
            if bytes.len() < NAME_MAX {
                bytes.len() as int
            } else {
                NAME_MAX as int
            },
        ),
{
    let n = if bytes.len() < NAME_MAX {
        bytes.len() as int
    } else {
        NAME_MAX as int
    };
    assert forall|i: int| 0 <= i < n implies #[trigger] name[i] != 0 by {
        assert(name[i] == bytes[i]);
    }
    lemma_name_end(name, 0, n);
    assert(name.take(n) =~= bytes.take(n));
}

proof fn lemma_name_end(name: Seq<u8>, i: int, n: int)
    requires
        0 <= i <= n <= name.len(),
        forall|k: int| i <= k < n ==> #[trigger] name[k] != 0,
        n < name.len() ==> name[n] == 0,
    ensures
        name_end(name, i) == n,
    decreases n - i,
{
    if i < n {
        lemma_name_end(name, i + 1, n);
    }
}

/// An input keeps the words that were given, as many as count, and is zero behind them.
pub proof fn law_inputs_keep_their_words(blob: Input, input: Seq<u32>, n: int, i: int)
    requires
        is_blob(blob, input, n),
        0 <= n <= INPUT_MAX,
        0 <= i < INPUT_MAX,
    ensures
        blob@[i] == (if i < n && i < input.len() {
            input[i]
        } else {
            0
        }),
{
}

/// A run over inputs and then over more inputs is a run over all of them.
pub proof fn law_runs_can_be_continued<F: Fn(State, Input) -> State>(
    sim: F,
    s0: State,
    s1: State,
    s2: State,
    a: Seq<Input>,
    b: Seq<Input>,
)
    requires
        sim_runs(sim, s0, a, s1),
        sim_runs(sim, s1, b, s2),
    ensures
        sim_runs(sim, s0, a + b, s2),
{
    let x = choose|tr: Seq<State>| #[trigger] is_run(sim, s0, a, tr) && tr.last() == s1;
    let y = choose|tr: Seq<State>| #[trigger] is_run(sim, s1, b, tr) && tr.last() == s2;
    let all = x + y.drop_first();
    let ins = a + b;
    assert forall|k: int| 0 <= k < ins.len() implies sim.ensures(
        (all[k], #[trigger] ins[k]),
        all[k + 1],
    ) by {
        if k < a.len() {
            assert(ins[k] == a[k]);
            assert(sim.ensures((x[k], a[k]), x[k + 1]));
        } else {
            let m = k - a.len();
            assert(ins[k] == b[m]);
            assert(sim.ensures((y[m], b[m]), y[m + 1]));
            assert(all[k + 1] == y[m + 1]);
            if m > 0 {
                assert(all[k] == y[m]);
            } else {
                assert(all[k] == x.last());
            }
        }
    }
    assert(is_run(sim, s0, ins, all));
    assert(all.last() == s2);
}

} // verus!
