//! A client's half of a session: taking the host's datagrams, reconciling its
//! prediction with the host's word, and following the other players.
use vstd::prelude::*;
use crate::wire::{
    Boom, Player, ShotFx, Snapshot, OBJ_WORDS, STATE_MAX, TAG_BOOM, TAG_FX, TAG_HIT, TAG_KILL,
    TAG_OBJECTS, TAG_REJECT, TAG_SHOTFX, decode_booms, decode_fx, decode_hit, decode_kill,
    decode_objects, decode_shots, decode_snapshot,
};
use crate::session::{Input, Remote, Session, State};
use crate::session;
use crate::wire;

verus! {

/// A remote not seen for more host ticks than this is forgotten.
pub const REMOTE_TICKS: u32 = 90;

/// A position to add to a remote's interpolation buffer; `fresh` says that the
/// remote is new and its buffer empty.
#[derive(Clone, Copy)]
pub struct Sample {
    pub id: u32,
    pub tick: u32,
    pub pos: [u32; 3],
    pub fresh: bool,
}

pub open spec fn sample_view(s: Sample) -> (u32, u32, Seq<u32>, bool) {
    (s.id, s.tick, s.pos@, s.fresh)
}

pub open spec fn sample_views(v: Seq<Sample>) -> Seq<(u32, u32, Seq<u32>, bool)> {
    Seq::new(v.len(), |i: int| sample_view(v[i]))
}

/// What a snapshot changes of a client, player by player.
pub struct Seen {
    pub pred: Player,
    pub pending: Seq<(u32, Input)>,
    pub remotes: Seq<(u32, Remote)>,
    pub samples: Seq<(u32, u32, Seq<u32>, bool)>,
}

/// The inputs still unacknowledged once `acked` was: all before and at it go.
pub open spec fn drop_acked(pending: Seq<(u32, Input)>, acked: u32) -> Seq<(u32, Input)>
    decreases pending.len(),
{
    if pending.len() > 0 && pending[0].0 <= acked {
        drop_acked(pending.drop_first(), acked)
    } else {
        pending
    }
}

pub open spec fn inputs_of(pending: Seq<(u32, Input)>) -> Seq<Input> {
    Seq::new(pending.len(), |i: int| pending[i].1)
}

/// The host's word in the words it replicates, the client's own in the rest.
pub open spec fn is_snapped(base: State, own: State, host: State, n: int) -> bool {
    forall|i: int|
        0 <= i < STATE_MAX ==> #[trigger] base@[i] == (if i < n {
            host@[i]
        } else {
            own@[i]
        })
}

/// One player of a snapshot. The client's own: take the host's word, drop what it
/// acknowledged, and replay the rest of the inputs on top. Another: note where it
/// is.
pub open spec fn sees<F: Fn(State, Input) -> State>(
    sim: F,
    state_len: int,
    snap: Snapshot,
    x: Seen,
    p: (u32, Player),
    y: Seen,
) -> bool {
    if p.0 == snap.your_id {
        &&& y.remotes == x.remotes
        &&& y.samples == x.samples
        &&& y.pending == drop_acked(x.pending, snap.acked)
        &&& y.pred.meta == p.1.meta
        &&& y.pred.name == p.1.name
        &&& exists|base: State|
            #[trigger] is_snapped(base, x.pred.s, p.1.s, state_len) && session::sim_runs(
                sim,
                base,
                inputs_of(y.pending),
                y.pred.s,
            )
    } else {
        let i = session::find_remote(x.remotes, p.0, 0);
        let r = (p.0, Remote { last: p.1, last_seen: snap.stick });
        &&& y.pred == x.pred
        &&& y.pending == x.pending
        &&& y.remotes == (if i < x.remotes.len() {
            x.remotes.update(i, r)
        } else {
            x.remotes.push(r)
        })
        &&& y.samples == x.samples.push((p.0, snap.tick, p.1.s@.take(3), i >= x.remotes.len()))
    }
}

/// `tr` follows the players of a snapshot one by one.
pub open spec fn follows<F: Fn(State, Input) -> State>(
    sim: F,
    state_len: int,
    snap: Snapshot,
    n: int,
    tr: Seq<Seen>,
) -> bool {
    &&& tr.len() == n + 1
    &&& forall|k: int|
        0 <= k < n ==> sees(sim, state_len, snap, tr[k], #[trigger] snap.players@[k], tr[k + 1])
}

pub open spec fn seen_of(s: Session, samples: Seq<(u32, u32, Seq<u32>, bool)>) -> Seen {
    Seen { pred: s.pred, pending: s.pending@, remotes: s.remotes@, samples }
}

/// The session after a snapshot, and the samples it yields.
pub open spec fn takes_snapshot<F: Fn(State, Input) -> State>(
    sim: F,
    a: Session,
    b: Session,
    snap: Snapshot,
    samples: Seq<(u32, u32, Seq<u32>, bool)>,
) -> bool {
    &&& b == (Session {
        got_snap: true,
        last_snap_tick: a.tick,
        my_id: snap.your_id,
        tick: snap.tick,
        last_server_tick: snap.stick,
        last_snap_players: snap.players.len(),
        pred: b.pred,
        pending: b.pending,
        remotes: b.remotes,
        ..a
    })
    &&& exists|tr: Seq<Seen>|
        #[trigger] follows(sim, a.state_len as int, snap, snap.players@.len() as int, tr) && tr[0]
            == seen_of(a, Seq::empty()) && tr.last() == seen_of(b, samples)
}

/// The remotes still followed at host tick `now`.
pub open spec fn recent(now: u32) -> spec_fn((u32, Remote)) -> bool {
    |r: (u32, Remote)| now - r.1.last_seen <= REMOTE_TICKS
}

/// Where a player is drawn along an axis: a remote where its interpolation buffer
/// puts it, anyone else where the state says, an unknown id at the origin.
pub open spec fn pos_of(s: Session, id: u32, sampled: Option<[u32; 3]>, axis: int) -> u32 {
    let remote = !s.is_server && id != s.my_id && session::find_remote(s.remotes@, id, 0)
        < s.remotes@.len();
    match (s.known(id), sampled) {
        (Some(_), Some(q)) if remote => q@[axis],
        (Some(p), _) => p.s@[axis],
        (None, _) => 0,
    }
}

/// The participants a client counts: itself and its remotes.
pub open spec fn guest_ids(s: Session) -> Seq<u32> {
    seq![s.my_id] + Seq::new(s.remotes@.len(), |i: int| s.remotes@[i].0)
}

/// Every input past the acknowledged one is replayed, and no other.
pub proof fn law_replays_exactly_the_unacked(
    pending: Seq<(u32, Input)>,
    next_seq: u32,
    acked: u32,
    e: (u32, Input),
)
    requires
        session::pending_ok(pending, next_seq),
    ensures
        drop_acked(pending, acked).contains(e) <==> pending.contains(e) && e.0 > acked,
        session::pending_ok(drop_acked(pending, acked), next_seq),
    decreases pending.len(),
{
    if pending.len() > 0 && pending[0].0 <= acked {
        let rest = pending.drop_first();
        assert forall|i: int, j: int| 0 <= i < j < rest.len() implies rest[i].0 < rest[j].0 by {
            assert(rest[i] == pending[i + 1] && rest[j] == pending[j + 1]);
        }
        assert forall|i: int| 0 <= i < rest.len() implies (#[trigger] rest[i]).0 < next_seq by {
            assert(rest[i] == pending[i + 1]);
        }
        law_replays_exactly_the_unacked(rest, next_seq, acked, e);
        if rest.contains(e) {
            let i = choose|i: int| 0 <= i < rest.len() && rest[i] == e;
            assert(pending[i + 1] == e);
        }
        if pending.contains(e) && e.0 > acked {
            let i = choose|i: int| 0 <= i < pending.len() && pending[i] == e;
            assert(rest[i - 1] == e);
        }
    } else if pending.len() > 0 {
        if pending.contains(e) {
            let i = choose|i: int| 0 <= i < pending.len() && pending[i] == e;
            assert(pending[0].0 <= pending[i].0);
        }
    }
}

/// What stays unacknowledged is the end of what was pending.
proof fn lemma_drop_acked(pending: Seq<(u32, Input)>, acked: u32)
    ensures
        drop_acked(pending, acked).len() <= pending.len(),
        drop_acked(pending, acked) == pending.skip(
            pending.len() - drop_acked(pending, acked).len(),
        ),
    decreases pending.len(),
{
    if pending.len() > 0 && pending[0].0 <= acked {
        let rest = pending.drop_first();
        lemma_drop_acked(rest, acked);
        let left = drop_acked(rest, acked);
        assert(rest.skip(rest.len() - left.len()) =~= pending.skip(pending.len() - left.len()));
    } else {
        assert(pending.skip(0) =~= pending);
    }
}

/// A step with one outcome has one run.
proof fn lemma_one_run<F: Fn(State, Input) -> State>(
    sim: F,
    s0: State,
    ins: Seq<Input>,
    x: Seq<State>,
    y: Seq<State>,
    k: int,
)
    requires
        one_outcome(sim),
        session::is_run(sim, s0, ins, x),
        session::is_run(sim, s0, ins, y),
        0 <= k <= ins.len(),
    ensures
        x[k] == y[k],
    decreases k,
{
    if k > 0 {
        lemma_one_run(sim, s0, ins, x, y, k - 1);
        let i = ins[k - 1];
        assert(sim.ensures((x[k - 1], i), x[k - 1 + 1]));
        assert(sim.ensures((y[k - 1], i), y[k - 1 + 1]));
    }
}

/// The step gives one state for a state and an input.
pub open spec fn one_outcome<F: Fn(State, Input) -> State>(sim: F) -> bool {
    forall|s: State, x: Input, a: State, b: State|
        #[trigger] sim.ensures((s, x), a) && #[trigger] sim.ensures((s, x), b) ==> a == b
}

/// The inputs an acknowledgement of `acked` takes from what is pending.
pub open spec fn acked_part(pending: Seq<(u32, Input)>, acked: u32) -> Seq<(u32, Input)> {
    pending.take(pending.len() - drop_acked(pending, acked).len())
}

/// A prediction that was right is left where it is. The client predicted all its
/// pending inputs from `s0`; the host ran those it acknowledges from there too, with
/// the same step; neither changed a word that is not replicated. Then taking the
/// host's word and replaying the rest ends where the prediction already was.
pub proof fn law_a_right_prediction_is_left_alone<F: Fn(State, Input) -> State>(
    sim: F,
    s0: State,
    pending: Seq<(u32, Input)>,
    acked: u32,
    own: State,
    host: State,
    n: int,
    base: State,
    after: State,
)
    requires
        one_outcome(sim),
        session::sim_runs(sim, s0, inputs_of(pending), own),
        session::sim_runs(sim, s0, inputs_of(acked_part(pending, acked)), host),
        forall|i: int| n <= i < STATE_MAX ==> #[trigger] host@[i] == own@[i],
        is_snapped(base, own, host, n),
        session::sim_runs(sim, base, inputs_of(drop_acked(pending, acked)), after),
    ensures
        after == own,
{
    lemma_drop_acked(pending, acked);
    let rest = drop_acked(pending, acked);
    let k = pending.len() - rest.len();
    let all = inputs_of(pending);
    let first = inputs_of(acked_part(pending, acked));
    let later = inputs_of(rest);
    let predicted = choose|tr: Seq<State>|
        #[trigger] session::is_run(sim, s0, all, tr) && tr.last() == own;
    let ran = choose|tr: Seq<State>|
        #[trigger] session::is_run(sim, s0, first, tr) && tr.last() == host;
    let replayed = choose|tr: Seq<State>|
        #[trigger] session::is_run(sim, base, later, tr) && tr.last() == after;
    assert(base@ =~= host@) by {
        assert forall|i: int| 0 <= i < STATE_MAX implies base@[i] == host@[i] by {
            if i >= n {
                assert(host@[i] == own@[i]);
            }
        }
    }
    assert(base == host);
    let head = predicted.take(k + 1);
    assert(session::is_run(sim, s0, first, head)) by {
        assert forall|i: int| 0 <= i < first.len() implies sim.ensures(
            (head[i], #[trigger] first[i]),
            head[i + 1],
        ) by {
            assert(first[i] == all[i]);
        }
    }
    lemma_one_run(sim, s0, first, head, ran, k);
    let tail = predicted.skip(k);
    assert(session::is_run(sim, base, later, tail)) by {
        assert forall|i: int| 0 <= i < later.len() implies sim.ensures(
            (tail[i], #[trigger] later[i]),
            tail[i + 1],
        ) by {
            assert(later[i] == all[k + i]);
            assert(sim.ensures((predicted[k + i], all[k + i]), predicted[k + i + 1]));
        }
    }
    lemma_one_run(sim, base, later, tail, replayed, later.len() as int);
}

proof fn lemma_filter_step<A>(s: Seq<A>, j: int, p: spec_fn(A) -> bool)
    requires
        0 <= j < s.len(),
    ensures
        s.take(j + 1).filter(p) == (if p(s[j]) {
            s.take(j).filter(p).push(s[j])
        } else {
            s.take(j).filter(p)
        }),
{
    reveal(Seq::filter);
    assert(s.take(j + 1).drop_last() =~= s.take(j));
}

impl Session {
    /// Reconcile with the host's word on our own player.
    fn reconcile<F: Fn(State, Input) -> State>(&mut self, st: &Player, acked: u32, sim: &F)
        requires
            old(self).wf(),
            forall|s: State, x: Input| sim.requires((s, x)),
        ensures
            final(self).wf(),
            *final(self) == (Session {
                pred: final(self).pred,
                pending: final(self).pending,
                ..*old(self)
            }),
            final(self).pending@ == drop_acked(old(self).pending@, acked),
            final(self).pred.meta == st.meta,
            final(self).pred.name == st.name,
            exists|base: State|
                #[trigger] is_snapped(
                    base,
                    old(self).pred.s,
                    st.s,
                    old(self).state_len as int,
                ) && session::sim_runs(
                    *sim,
                    base,
                    inputs_of(final(self).pending@),
                    final(self).pred.s,
                ),
    {
        let mut s = self.pred.s;
        let mut i: usize = 0;
        while i < self.state_len
            invariant
                self.wf(),
                *self == *old(self),
                i <= self.state_len,
                is_snapped(s, self.pred.s, st.s, i as int),
            decreases self.state_len - i,
        {
            s[i] = st.s[i];
            i += 1;
        }
        let ghost base = s;
        self.pred.meta = st.meta;
        self.pred.name = st.name;
        while self.pending.len() > 0 && self.pending[0].0 <= acked
            invariant
                self.wf(),
                *self == (Session { pred: self.pred, pending: self.pending, ..*old(self) }),
                self.pred == (Player { meta: st.meta, name: st.name, ..old(self).pred }),
                drop_acked(old(self).pending@, acked) == drop_acked(self.pending@, acked),
            decreases self.pending@.len(),
        {
            let ghost before = self.pending@;
            self.pending.remove(0);
            assert(self.pending@ =~= before.drop_first());
        }
        let ghost ins = inputs_of(self.pending@);
        let ghost mut tr: Seq<State> = seq![s];
        let mut k: usize = 0;
        assert(ins.take(0) =~= Seq::empty());
        while k < self.pending.len()
            invariant
                self.wf(),
                *self == (Session { pred: self.pred, pending: self.pending, ..*old(self) }),
                self.pred == (Player { meta: st.meta, name: st.name, ..old(self).pred }),
                ins == inputs_of(self.pending@),
                k <= self.pending@.len(),
                forall|s: State, x: Input| sim.requires((s, x)),
                tr.len() == k + 1,
                session::is_run(*sim, base, ins.take(k as int), tr),
                tr.last() == s,
                self.pending@ == drop_acked(old(self).pending@, acked),
            decreases self.pending@.len() - k,
        {
            let inp = self.pending[k].1;
            s = sim(s, inp);
            proof {
                let tr2 = tr.push(s);
                let ins2 = ins.take(k + 1);
                assert forall|n: int| 0 <= n < ins2.len() implies sim.ensures(
                    (tr2[n], #[trigger] ins2[n]),
                    tr2[n + 1],
                ) by {
                    if n < k {
                        assert(ins.take(k as int)[n] == ins2[n]);
                        assert(tr2[n] == tr[n] && tr2[n + 1] == tr[n + 1]);
                    }
                }
                tr = tr2;
            }
            k += 1;
        }
        assert(ins.take(k as int) =~= ins);
        self.pred.s = s;
        assert(session::sim_runs(*sim, base, ins, s));
        assert(is_snapped(base, old(self).pred.s, st.s, old(self).state_len as int));
    }

    /// Note where another player is.
    fn follow(&mut self, id: u32, st: &Player, stick: u32) -> (fresh: bool)
        requires
            old(self).wf(),
        ensures
            final(self).wf(),
            *final(self) == (Session { remotes: final(self).remotes, ..*old(self) }),
            ({
                let i = session::find_remote(old(self).remotes@, id, 0);
                let r = (id, Remote { last: *st, last_seen: stick });
                &&& fresh == (i >= old(self).remotes@.len())
                &&& final(self).remotes@ == (if i < old(self).remotes@.len() {
                    old(self).remotes@.update(i, r)
                } else {
                    old(self).remotes@.push(r)
                })
            }),
    {
        let i: usize = self.remote_index(id);
        let r = (id, Remote { last: *st, last_seen: stick });
        if i < self.remotes.len() {
            self.remotes[i] = r;
            false
        } else {
            self.remotes.push(r);
            true
        }
    }

    /// Take a snapshot.
    pub fn take_snapshot<F: Fn(State, Input) -> State>(&mut self, snap: &Snapshot, sim: &F) -> (r:
        Vec<Sample>)
        requires
            old(self).wf(),
            forall|s: State, x: Input| sim.requires((s, x)),
        ensures
            final(self).wf(),
            takes_snapshot(*sim, *old(self), *final(self), *snap, sample_views(r@)),
    {
        let ghost a = *self;
        self.got_snap = true;
        self.last_snap_tick = self.tick;
        self.my_id = snap.your_id;
        self.tick = snap.tick;
        self.last_server_tick = snap.stick;
        self.last_snap_players = snap.players.len();
        let mut out: Vec<Sample> = Vec::new();
        assert(sample_views(out@) =~= Seq::empty());
        let ghost mut tr: Seq<Seen> = seq![seen_of(a, Seq::empty())];
        let mut k: usize = 0;
        while k < snap.players.len()
            invariant
                self.wf(),
                k <= snap.players@.len(),
                forall|s: State, x: Input| sim.requires((s, x)),
                *self == (Session {
                    got_snap: true,
                    last_snap_tick: a.tick,
                    my_id: snap.your_id,
                    tick: snap.tick,
                    last_server_tick: snap.stick,
                    last_snap_players: snap.players.len(),
                    pred: self.pred,
                    pending: self.pending,
                    remotes: self.remotes,
                    ..a
                }),
                follows(*sim, a.state_len as int, *snap, k as int, tr),
                tr[0] == seen_of(a, Seq::empty()),
                tr.last() == seen_of(*self, sample_views(out@)),
            decreases snap.players@.len() - k,
        {
            let (id, st): (u32, Player) = snap.players[k];
            let ghost x = tr.last();
            let ghost o0 = out@;
            if id == snap.your_id {
                let ghost before = *self;
                self.reconcile(&st, snap.acked, sim);
                proof {
                    let base = choose|base: State|
                        #[trigger] is_snapped(
                            base,
                            before.pred.s,
                            st.s,
                            before.state_len as int,
                        ) && session::sim_runs(*sim, base, inputs_of(self.pending@), self.pred.s);
                    assert(is_snapped(base, x.pred.s, st.s, a.state_len as int));
                }
                assert(sees(
                    *sim,
                    a.state_len as int,
                    *snap,
                    x,
                    (id, st),
                    seen_of(*self, sample_views(out@)),
                ));
            } else {
                let fresh: bool = self.follow(id, &st, snap.stick);
                let pos = [st.s[0], st.s[1], st.s[2]];
                assert(pos@ =~= st.s@.take(3));
                out.push(Sample { id, tick: snap.tick, pos, fresh });
                assert(sample_views(out@) =~= sample_views(o0).push(
                    (id, snap.tick, st.s@.take(3), fresh),
                ));
                assert(sees(
                    *sim,
                    a.state_len as int,
                    *snap,
                    x,
                    (id, st),
                    seen_of(*self, sample_views(out@)),
                ));
            }
            proof {
                let y = seen_of(*self, sample_views(out@));
                assert(sees(*sim, a.state_len as int, *snap, x, snap.players@[k as int], y));
                let tr2 = tr.push(y);
                assert forall|n: int| 0 <= n < k + 1 implies sees(
                    *sim,
                    a.state_len as int,
                    *snap,
                    tr2[n],
                    #[trigger] snap.players@[n],
                    tr2[n + 1],
                ) by {
                    if n < k {
                        assert(tr2[n] == tr[n] && tr2[n + 1] == tr[n + 1]);
                    }
                }
                tr = tr2;
            }
            k += 1;
        }
        out
    }

    /// Take one datagram from the host. Returns the positions to interpolate.
    pub fn on_client_packet<F: Fn(State, Input) -> State>(&mut self, pkt: &[u8], sim: F) -> (r: Vec<
        Sample,
    >)
        requires
            old(self).wf(),
            forall|s: State, x: Input| sim.requires((s, x)),
        ensures
            final(self).wf(),
            !wire::is_snapshot(pkt@) ==> r@.len() == 0 && guest_takes(
                *old(self),
                *final(self),
                pkt@,
            ),
            wire::is_snapshot(pkt@) ==> exists|snap: Snapshot|
                #[trigger] wire::says_snapshot(pkt@, snap) && takes_snapshot(
                    sim,
                    *old(self),
                    *final(self),
                    snap,
                    sample_views(r@),
                ),
    {
        if pkt.len() == 0 {
            return Vec::new();
        }
        let tag: u8 = pkt[0];
        if tag == TAG_REJECT {
            self.rejected = true;
        } else if tag == TAG_HIT {
            if let Some(h) = decode_hit(pkt) {
                self.last_hit = h;
            }
        } else if tag == TAG_OBJECTS {
            if let Some(objs) = decode_objects(pkt) {
                self.objects = objs;
            }
        } else if tag == TAG_FX {
            if let Some(fx) = decode_fx(pkt) {
                self.fx = fx;
            }
        } else if tag == TAG_KILL {
            if let Some(k) = decode_kill(pkt) {
                self.kill_in.push(k);
            }
        } else if tag == TAG_SHOTFX {
            if let Some(shots) = decode_shots(pkt) {
                self.add_shots(&shots);
                assert(self.shots_in@.take(old(self).shots_in@.len() as int) =~= old(self).shots_in@);
                assert forall|k: int| old(self).shots_in@.len() <= k < self.shots_in@.len() implies
                    wire::says_shot(
                    pkt@,
                    3 + 29 * (k - old(self).shots_in@.len()),
                    #[trigger] self.shots_in@[k],
                ) by {
                    assert(self.shots_in@[k] == shots@[k - old(self).shots_in@.len()]);
                }
            }
        } else if tag == TAG_BOOM {
            if let Some(booms) = decode_booms(pkt) {
                self.add_booms(&booms);
                assert(self.booms_in@.take(old(self).booms_in@.len() as int) =~= old(self).booms_in@);
                assert forall|k: int| old(self).booms_in@.len() <= k < self.booms_in@.len() implies
                    wire::says_boom(
                    pkt@,
                    3 + 20 * (k - old(self).booms_in@.len()),
                    #[trigger] self.booms_in@[k],
                ) by {
                    assert(self.booms_in@[k] == booms@[k - old(self).booms_in@.len()]);
                }
            }
        } else if let Some(snap) = decode_snapshot(pkt) {
            return self.take_snapshot(&snap, &sim);
        }
        Vec::new()
    }

    fn add_shots(&mut self, shots: &Vec<ShotFx>)
        requires
            old(self).wf(),
        ensures
            final(self).wf(),
            *final(self) == (Session { shots_in: final(self).shots_in, ..*old(self) }),
            final(self).shots_in@ == old(self).shots_in@ + shots@,
    {
        let mut k: usize = 0;
        while k < shots.len()
            invariant
                self.wf(),
                k <= shots@.len(),
                *self == (Session { shots_in: self.shots_in, ..*old(self) }),
                self.shots_in@ == old(self).shots_in@ + shots@.take(k as int),
            decreases shots@.len() - k,
        {
            self.shots_in.push(shots[k]);
            assert(shots@.take(k + 1) =~= shots@.take(k as int).push(shots@[k as int]));
            k += 1;
        }
        assert(shots@.take(k as int) =~= shots@);
    }

    fn add_booms(&mut self, booms: &Vec<Boom>)
        requires
            old(self).wf(),
        ensures
            final(self).wf(),
            *final(self) == (Session { booms_in: final(self).booms_in, ..*old(self) }),
            final(self).booms_in@ == old(self).booms_in@ + booms@,
    {
        let mut k: usize = 0;
        while k < booms.len()
            invariant
                self.wf(),
                k <= booms@.len(),
                *self == (Session { booms_in: self.booms_in, ..*old(self) }),
                self.booms_in@ == old(self).booms_in@ + booms@.take(k as int),
            decreases booms@.len() - k,
        {
            self.booms_in.push(booms[k]);
            assert(booms@.take(k + 1) =~= booms@.take(k as int).push(booms@[k as int]));
            k += 1;
        }
        assert(booms@.take(k as int) =~= booms@);
    }

    /// A position word of a player. For a remote, `sampled` is what its
    /// interpolation buffer gives for now, if anything.
    fn pos_word(&self, id: u32, sampled: Option<[u32; 3]>, axis: usize) -> (r: u32)
        requires
            axis < 3,
        ensures
            r == pos_of(*self, id, sampled, axis as int),
    {
        if !self.is_server && id != self.my_id && self.remote_index(id) < self.remotes.len() {
            if let Some(q) = sampled {
                return q[axis];
            }
        }
        self.state(id, axis)
    }

    pub fn px(&self, id: u32, sampled: Option<[u32; 3]>) -> (r: u32)
        ensures
            r == pos_of(*self, id, sampled, 0),
    {
        self.pos_word(id, sampled, 0)
    }

    pub fn py(&self, id: u32, sampled: Option<[u32; 3]>) -> (r: u32)
        ensures
            r == pos_of(*self, id, sampled, 1),
    {
        self.pos_word(id, sampled, 1)
    }

    pub fn pz(&self, id: u32, sampled: Option<[u32; 3]>) -> (r: u32)
        ensures
            r == pos_of(*self, id, sampled, 2),
    {
        self.pos_word(id, sampled, 2)
    }

    pub fn pyaw(&self, id: u32) -> (r: u32)
        ensures
            r == (match self.known(id) {
                Some(p) => p.s@[3],
                None => 0,
            }),
    {
        self.state(id, 3)
    }

    /// Advance a client: set the clock to `tick` and forget the remotes that the
    /// host stopped sending.
    pub fn update_client(&mut self, tick: u32)
        requires
            old(self).wf(),
        ensures
            final(self).wf(),
            *final(self) == (Session {
                tick,
                remotes: final(self).remotes,
                ids: final(self).ids,
                ..*old(self)
            }),
            final(self).remotes@ == old(self).remotes@.filter(recent(old(self).last_server_tick)),
            final(self).ids@ == guest_ids(*final(self)),
    {
        self.tick = tick;
        let now: u32 = self.last_server_tick;
        let ghost rs = self.remotes@;
        let ghost p = recent(now);
        let mut kept: Vec<(u32, Remote)> = Vec::new();
        let mut ids: Vec<u32> = Vec::new();
        ids.push(self.my_id);
        let mut j: usize = 0;
        proof {
            reveal(Seq::filter);
            assert(rs.take(0) =~= Seq::empty());
            assert(kept@ =~= rs.take(0).filter(p));
        }
        while j < self.remotes.len()
            invariant
                self.wf(),
                *self == (Session { tick, ..*old(self) }),
                rs == self.remotes@,
                p == recent(now),
                j <= rs.len(),
                kept@ == rs.take(j as int).filter(p),
                ids@.len() == kept@.len() + 1,
                ids@[0] == self.my_id,
                forall|k: int| 0 <= k < kept@.len() ==> #[trigger] ids@[k + 1] == kept@[k].0,
            decreases rs.len() - j,
        {
            proof {
                lemma_filter_step(rs, j as int, p);
            }
            let r = self.remotes[j];
            let gone: bool = r.1.last_seen < now && now - r.1.last_seen > REMOTE_TICKS;
            if !gone {
                kept.push(r);
                ids.push(r.0);
                assert forall|k: int| 0 <= k < kept@.len() implies #[trigger] ids@[k + 1]
                    == kept@[k].0 by {}
            }
            j += 1;
        }
        assert(rs.take(j as int) =~= rs);
        self.remotes = kept;
        self.ids = ids;
        assert(self.ids@ =~= guest_ids(*self)) by {
            assert forall|k: int| 0 <= k < self.ids@.len() implies self.ids@[k] == guest_ids(
                *self,
            )[k] by {
                if k > 0 {
                    assert(self.ids@[(k - 1) + 1] == self.remotes@[k - 1].0);
                }
            }
        }
    }
}

/// The session after any datagram but a snapshot.
pub open spec fn guest_takes(a: Session, b: Session, pkt: Seq<u8>) -> bool {
    let tag = pkt[0];
    if pkt.len() == 0 {
        b == a
    } else if tag == TAG_REJECT {
        b == (Session { rejected: true, ..a })
    } else if wire::is_hit(pkt) {
        &&& b == (Session { last_hit: b.last_hit, ..a })
        &&& wire::says_hit(pkt, b.last_hit.0, b.last_hit.1)
    } else if wire::is_list(pkt, TAG_OBJECTS) {
        &&& b == (Session { objects: b.objects, ..a })
        &&& b.objects@.len() == wire::list_count(pkt, 60)
        &&& forall|k: int|
            0 <= k < b.objects@.len() ==> (#[trigger] b.objects@[k])@ == wire::words_at(
                pkt,
                3 + 60 * k,
                OBJ_WORDS as int,
            )
    } else if wire::is_list(pkt, TAG_FX) {
        &&& b == (Session { fx: b.fx, ..a })
        &&& b.fx@.len() == wire::list_count(pkt, 16)
        &&& forall|k: int|
            0 <= k < b.fx@.len() ==> (#[trigger] b.fx@[k])@ == wire::words_at(pkt, 3 + 16 * k, 4)
    } else if wire::is_kill(pkt) {
        &&& b == (Session { kill_in: b.kill_in, ..a })
        &&& b.kill_in@ == a.kill_in@.push((wire::word_at(pkt, 1), wire::word_at(pkt, 5)))
    } else if wire::is_list(pkt, TAG_SHOTFX) {
        &&& b == (Session { shots_in: b.shots_in, ..a })
        &&& b.shots_in@.len() == a.shots_in@.len() + wire::list_count(pkt, 29)
        &&& b.shots_in@.take(a.shots_in@.len() as int) == a.shots_in@
        &&& forall|k: int|
            a.shots_in@.len() <= k < b.shots_in@.len() ==> wire::says_shot(
                pkt,
                3 + 29 * (k - a.shots_in@.len()),
                #[trigger] b.shots_in@[k],
            )
    } else if wire::is_list(pkt, TAG_BOOM) {
        &&& b == (Session { booms_in: b.booms_in, ..a })
        &&& b.booms_in@.len() == a.booms_in@.len() + wire::list_count(pkt, 20)
        &&& b.booms_in@.take(a.booms_in@.len() as int) == a.booms_in@
        &&& forall|k: int|
            a.booms_in@.len() <= k < b.booms_in@.len() ==> wire::says_boom(
                pkt,
                3 + 20 * (k - a.booms_in@.len()),
                #[trigger] b.booms_in@[k],
            )
    } else {
        b == a
    }
}

/// A remote is drawn where its interpolation buffer puts it, each coordinate on its own
/// axis. Without a sample, and for anyone who is not a remote, the state's own words
/// count; someone unknown is at the origin.
pub proof fn law_positions_keep_their_axes(s: Session, id: u32, q: [u32; 3], i: int)
    ensures
        !s.is_server && id != s.my_id && 0 <= i < s.remotes@.len() && s.remotes@[i].0 == id ==> {
            &&& pos_of(s, id, Some(q), 0) == q@[0]
            &&& pos_of(s, id, Some(q), 1) == q@[1]
            &&& pos_of(s, id, Some(q), 2) == q@[2]
        },
        s.is_server || id == s.my_id ==> forall|axis: int| #[trigger]
            pos_of(s, id, Some(q), axis) == pos_of(s, id, None, axis),
        s.known(id) matches Some(p) ==> {
            &&& pos_of(s, id, None, 0) == p.s@[0]
            &&& pos_of(s, id, None, 1) == p.s@[1]
            &&& pos_of(s, id, None, 2) == p.s@[2]
        },
        !s.is_server && id == s.my_id ==> {
            &&& pos_of(s, id, None, 0) == s.pred.s@[0]
            &&& pos_of(s, id, None, 1) == s.pred.s@[1]
            &&& pos_of(s, id, None, 2) == s.pred.s@[2]
        },
        s.known(id) is None ==> forall|axis: int| #[trigger] pos_of(s, id, Some(q), axis) == 0
            && pos_of(s, id, None, axis) == 0,
{
    session::law_remotes_are_found_first(s.remotes@, id, 0);
}

/// Two samples of a remote are read back alike only where they are alike.
pub proof fn law_samples_are_told_apart(s: Session, id: u32, a: [u32; 3], b: [u32; 3], i: int)
    requires
        !s.is_server,
        id != s.my_id,
        0 <= i < s.remotes@.len(),
        s.remotes@[i].0 == id,
        forall|axis: int|
            0 <= axis < 3 ==> #[trigger] pos_of(s, id, Some(a), axis) == pos_of(
                s,
                id,
                Some(b),
                axis,
            ),
    ensures
        a@ == b@,
{
    law_positions_keep_their_axes(s, id, a, i);
    law_positions_keep_their_axes(s, id, b, i);
    assert(pos_of(s, id, Some(a), 0) == pos_of(s, id, Some(b), 0));
    assert(pos_of(s, id, Some(a), 1) == pos_of(s, id, Some(b), 1));
    assert(pos_of(s, id, Some(a), 2) == pos_of(s, id, Some(b), 2));
    assert(a@ =~= b@);
}

/// A snapshot's word on another player is what is known of that player afterwards, and
/// yields one sample of its position at the snapshot's tick, marked as the first where the
/// player was not followed before. What is known of everyone else stays.
pub proof fn law_others_are_noted_as_told<F: Fn(State, Input) -> State>(
    sim: F,
    state_len: int,
    snap: Snapshot,
    x: Seen,
    p: (u32, Player),
    y: Seen,
    k: int,
)
    requires
        sees(sim, state_len, snap, x, p, y),
        p.0 != snap.your_id,
        0 <= k < x.remotes.len(),
    ensures
        y.remotes.contains((p.0, Remote { last: p.1, last_seen: snap.stick })),
        x.remotes[k].0 != p.0 ==> y.remotes[k] == x.remotes[k],
        y.samples.len() == x.samples.len() + 1,
        y.samples.last().0 == p.0,
        y.samples.last().1 == snap.tick,
        y.samples.last().2 == seq![p.1.s@[0], p.1.s@[1], p.1.s@[2]],
        y.samples.last().3 <==> forall|m: int|
            0 <= m < x.remotes.len() ==> (#[trigger] x.remotes[m]).0 != p.0,
        y.pred == x.pred,
        y.pending == x.pending,
{
    session::law_remotes_are_found_first(x.remotes, p.0, 0);
    let i = session::find_remote(x.remotes, p.0, 0);
    let r = (p.0, Remote { last: p.1, last_seen: snap.stick });
    assert(y.remotes[i] == r);
    assert(p.1.s@.take(3) =~= seq![p.1.s@[0], p.1.s@[1], p.1.s@[2]]);
}

/// A client's own player takes the host's words where the host replicates them and keeps
/// its own elsewhere.
pub proof fn law_the_hosts_word_wins(base: State, own: State, host: State, n: int, i: int)
    requires
        is_snapped(base, own, host, n),
        0 <= i < STATE_MAX,
    ensures
        i < n ==> base@[i] == host@[i],
        i >= n ==> base@[i] == own@[i],
{
    assert(base@[i] == (if i < n {
        host@[i]
    } else {
        own@[i]
    }));
}

/// A remote that was heard of now is still followed, and whoever is followed at some tick
/// was at every earlier one; one that was last heard of more than 90 ticks ago is not.
pub proof fn law_remotes_are_dropped_by_age(r: (u32, Remote), earlier: u32, now: u32)
    requires
        earlier <= now,
    ensures
        recent(r.1.last_seen)(r),
        recent(now)(r) ==> recent(earlier)(r),
        recent(now)(r) <==> now <= r.1.last_seen + 90,
{
}

/// A client counts itself first and then its remotes in their order.
pub proof fn law_a_client_counts_itself_first(s: Session, i: int)
    ensures
        guest_ids(s).len() == s.remotes@.len() + 1,
        guest_ids(s)[0] == s.my_id,
        0 <= i < s.remotes@.len() ==> guest_ids(s)[i + 1] == s.remotes@[i].0,
{
}

/// A client's own player in a snapshot leaves what is known of others alone and yields no
/// sample. Its metadata and its name are the host's word, and of its inputs those stay that
/// the host has not acknowledged.
pub proof fn law_the_own_player_is_no_remote<F: Fn(State, Input) -> State>(
    sim: F,
    state_len: int,
    snap: Snapshot,
    x: Seen,
    p: (u32, Player),
    y: Seen,
)
    requires
        sees(sim, state_len, snap, x, p, y),
        p.0 == snap.your_id,
    ensures
        y.remotes == x.remotes,
        y.samples == x.samples,
        y.pred.meta == p.1.meta,
        y.pred.name == p.1.name,
        y.pending == drop_acked(x.pending, snap.acked),
{
}

/// How many of the first `n` players of a snapshot are not the client's own.
pub open spec fn others(snap: Snapshot, n: int) -> int
    decreases n,
{
    if n <= 0 {
        0
    } else {
        others(snap, n - 1) + (if snap.players@[n - 1].0 == snap.your_id {
            0int
        } else {
            1
        })
    }
}

/// A snapshot yields one sample for every player in it but the client's own, and a client
/// that took it knows its own id, both clocks and how many players there were.
pub proof fn law_a_snapshot_yields_a_sample_for_every_other<F: Fn(State, Input) -> State>(
    sim: F,
    a: Session,
    b: Session,
    snap: Snapshot,
    samples: Seq<(u32, u32, Seq<u32>, bool)>,
)
    requires
        takes_snapshot(sim, a, b, snap, samples),
    ensures
        samples.len() == others(snap, snap.players@.len() as int),
        b.got_snap,
        b.my_id == snap.your_id,
        b.tick == snap.tick,
        b.last_server_tick == snap.stick,
        b.last_snap_tick == a.tick,
        b.last_snap_players == snap.players@.len(),
        b.clients == a.clients,
        b.next_seq == a.next_seq,
{
    let n = snap.players@.len() as int;
    let tr = choose|tr: Seq<Seen>|
        #[trigger] follows(sim, a.state_len as int, snap, n, tr) && tr[0] == seen_of(
            a,
            Seq::empty(),
        ) && tr.last() == seen_of(b, samples);
    lemma_samples(sim, a.state_len as int, snap, n, tr, n);
    assert(tr[n] == tr.last());
}

proof fn lemma_samples<F: Fn(State, Input) -> State>(
    sim: F,
    state_len: int,
    snap: Snapshot,
    n: int,
    tr: Seq<Seen>,
    k: int,
)
    requires
        follows(sim, state_len, snap, n, tr),
        0 <= k <= n <= snap.players@.len(),
    ensures
        tr[k].samples.len() == tr[0].samples.len() + others(snap, k),
    decreases k,
{
    if k > 0 {
        lemma_samples(sim, state_len, snap, n, tr, k - 1);
        assert(sees(sim, state_len, snap, tr[k - 1], snap.players@[k - 1], tr[k - 1 + 1]));
    }
}

/// After a snapshot every player in it but the client's own is known as the snapshot
/// showed it, as of the host's tick.
pub proof fn law_a_snapshot_is_remembered<F: Fn(State, Input) -> State>(
    sim: F,
    a: Session,
    b: Session,
    snap: Snapshot,
    samples: Seq<(u32, u32, Seq<u32>, bool)>,
    k: int,
)
    requires
        takes_snapshot(sim, a, b, snap, samples),
        0 <= k < snap.players@.len(),
        snap.players@[k].0 != snap.your_id,
        forall|i: int, j: int|
            0 <= i < j < snap.players@.len() ==> (#[trigger] snap.players@[i]).0 != (
            #[trigger] snap.players@[j]).0,
    ensures
        b.remotes@.contains(
            (
                snap.players@[k].0,
                Remote { last: snap.players@[k].1, last_seen: snap.stick },
            ),
        ),
{
    let n = snap.players@.len() as int;
    let tr = choose|tr: Seq<Seen>|
        #[trigger] follows(sim, a.state_len as int, snap, n, tr) && tr[0] == seen_of(
            a,
            Seq::empty(),
        ) && tr.last() == seen_of(b, samples);
    lemma_remembered(sim, a.state_len as int, snap, n, tr, k, n);
    assert(tr[n] == tr.last());
}

proof fn lemma_remembered<F: Fn(State, Input) -> State>(
    sim: F,
    state_len: int,
    snap: Snapshot,
    n: int,
    tr: Seq<Seen>,
    k: int,
    m: int,
)
    requires
        follows(sim, state_len, snap, n, tr),
        0 <= k < m <= n <= snap.players@.len(),
        snap.players@[k].0 != snap.your_id,
        forall|i: int, j: int|
            0 <= i < j < snap.players@.len() ==> (#[trigger] snap.players@[i]).0 != (
            #[trigger] snap.players@[j]).0,
    ensures
        tr[m].remotes.contains(
            (
                snap.players@[k].0,
                Remote { last: snap.players@[k].1, last_seen: snap.stick },
            ),
        ),
    decreases m,
{
    let p = snap.players@[m - 1];
    let (x, y) = (tr[m - 1], tr[m - 1 + 1]);
    let want = (snap.players@[k].0, Remote { last: snap.players@[k].1, last_seen: snap.stick });
    assert(sees(sim, state_len, snap, x, p, y));
    let i = session::find_remote(x.remotes, p.0, 0);
    session::law_remotes_are_found_first(x.remotes, p.0, 0);
    if k == m - 1 {
        assert(y.remotes[i] == want);
    } else {
        lemma_remembered(sim, state_len, snap, n, tr, k, m - 1);
        assert(snap.players@[k].0 != snap.players@[m - 1].0);
        let j = choose|j: int| 0 <= j < x.remotes.len() && x.remotes[j] == want;
        assert(y.remotes[j] == want);
    }
}

/// What the host announces arrives as it was announced: a hit, a kill, the objects, the
/// visuals, the shots and the explosions.
pub proof fn law_announcements_arrive(
    a: Session,
    b: Session,
    id: i64,
    at: [u32; 3],
    killer: u32,
    victim: u32,
)
    requires
        i32::MIN <= id <= i32::MAX,
    ensures
        guest_takes(a, b, wire::hit_bytes(id, at@)) ==> b.last_hit.0 == id && b.last_hit.1 == at,
        guest_takes(a, b, wire::kill_bytes(killer, victim)) ==> b.kill_in@ == a.kill_in@.push(
            (killer, victim),
        ),
        guest_takes(a, b, seq![TAG_REJECT]) ==> b.rejected,
        guest_takes(a, b, Seq::empty()) ==> b == a,
{
    if guest_takes(a, b, wire::hit_bytes(id, at@)) {
        wire::law_hit_round_trip(id, at, b.last_hit.0, b.last_hit.1);
    }
    wire::law_kill_round_trip(killer, victim);
}

/// The objects and the visuals a client has after hearing of them are those the host sent.
pub proof fn law_lists_arrive_whole(
    a: Session,
    b: Session,
    objects: Seq<[u32; OBJ_WORDS]>,
    fx: Seq<[u32; 4]>,
    k: int,
)
    requires
        objects.len() <= 0xffff,
        fx.len() <= 0xffff,
    ensures
        guest_takes(a, b, wire::list_bytes(TAG_OBJECTS, objects, wire::object_enc())) ==> {
            &&& b.objects@.len() == objects.len()
            &&& 0 <= k < objects.len() ==> b.objects@[k]@ == objects[k]@
        },
        guest_takes(a, b, wire::list_bytes(TAG_FX, fx, wire::fx_enc())) ==> {
            &&& b.fx@.len() == fx.len()
            &&& 0 <= k < fx.len() ==> b.fx@[k]@ == fx[k]@
        },
{
    wire::law_objects_round_trip(objects, k);
    wire::law_fx_round_trip(fx, k);
}

/// Shots and explosions that the host sends are added behind those a client has not drawn
/// yet, in order.
pub proof fn law_shots_arrive_in_order(
    a: Session,
    b: Session,
    shots: Seq<ShotFx>,
    booms: Seq<Boom>,
    k: int,
)
    requires
        shots.len() <= 0xffff,
        booms.len() <= 0xffff,
    ensures
        guest_takes(a, b, wire::list_bytes(TAG_SHOTFX, shots, wire::shot_enc())) && 0 <= k
            < shots.len() ==> {
            &&& b.shots_in@.len() == a.shots_in@.len() + shots.len()
            &&& a.shots_in@.is_prefix_of(b.shots_in@)
            &&& b.shots_in@[a.shots_in@.len() + k] == shots[k]
        },
        guest_takes(a, b, wire::list_bytes(TAG_BOOM, booms, wire::boom_enc())) && 0 <= k
            < booms.len() ==> {
            &&& b.booms_in@.len() == a.booms_in@.len() + booms.len()
            &&& a.booms_in@.is_prefix_of(b.booms_in@)
            &&& b.booms_in@[a.booms_in@.len() + k] == booms[k]
        },
{
    if guest_takes(a, b, wire::list_bytes(TAG_SHOTFX, shots, wire::shot_enc())) && 0 <= k
        < shots.len() {
        let n = a.shots_in@.len();
        let s = wire::list_bytes(TAG_SHOTFX, shots, wire::shot_enc());
        wire::lemma_list_round_trip(TAG_SHOTFX, shots, wire::shot_enc(), 29, k);
        let got = b.shots_in@[n + k];
        assert(wire::says_shot(s, 3 + 29 * (n + k - n), got));
        wire::law_shots_round_trip(shots, k, got);
    }
    if guest_takes(a, b, wire::list_bytes(TAG_BOOM, booms, wire::boom_enc())) && 0 <= k
        < booms.len() {
        let n = a.booms_in@.len();
        let s = wire::list_bytes(TAG_BOOM, booms, wire::boom_enc());
        wire::lemma_list_round_trip(TAG_BOOM, booms, wire::boom_enc(), 20, k);
        let got = b.booms_in@[n + k];
        assert(wire::says_boom(s, 3 + 20 * (n + k - n), got));
        wire::law_booms_round_trip(booms, k, got);
    }
}

/// What is told of samples is everything they hold, in their order.
pub proof fn law_samples_are_told_whole(v: Seq<Sample>, pending: Seq<(u32, Input)>, i: int)
    ensures
        sample_views(v).len() == v.len(),
        0 <= i < v.len() ==> {
            &&& sample_views(v)[i].0 == v[i].id
            &&& sample_views(v)[i].1 == v[i].tick
            &&& sample_views(v)[i].2 == v[i].pos@
            &&& sample_views(v)[i].3 == v[i].fresh
        },
        inputs_of(pending).len() == pending.len(),
        0 <= i < pending.len() ==> inputs_of(pending)[i] == pending[i].1,
{
}

} // verus!
