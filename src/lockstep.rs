//! Deterministic lockstep: the per-tick command buffer, the tick scheduler and
//! the peer directory of one session.
//!
//! Commands are buffered per `(tick, player)`.  `advance` hands out the
//! commands of the current tick, merged in ascending player order, and moves
//! to the next tick; it refuses to move while a missing player's last
//! acknowledged tick lags `MAX_TICK_LEAD` or more ticks behind.
use vstd::prelude::*;
use crate::commands::{
    copy_commands, copy_message, message_of, Command, DisconnectReason, MessageModel, NetworkCommand,
    NetworkMessage, PlayerJoinMessage, PlayerLeaveMessage,
};
use crate::desync::{
    record_all_model, record_model, reports_from, ticks_from, DesyncDetector, DesyncEvent,
    DetectorModel, ReportModel,
};
use crate::replay::{color_of, player_color, PlayerReplayInfo, PlayerTickCommands};
use crate::session::{
    addr_owner, addr_owner_upto, address_all, free_id, free_id_upto, handle_model, host_model,
    is_active_state, known_upto, latency, lemma_free_found, lemma_free_unknown, lemma_owner_found,
    lemma_owner_known, outbound_model, process_model, relay_targets, relay_upto, to_all, ProcessModel,
    ProtocolError,
};

verus! {

/// How many ticks the scheduler may run ahead of the slowest player.
pub const MAX_TICK_LEAD: u64 = 5;

/// Number of distinct player ids.
pub const MAX_PLAYERS: usize = 256;

/// A transport address: an IPv6 address (IPv4 ones mapped into it) and a port.
#[derive(Clone, Copy, Debug, PartialEq, Eq, Structural)]
pub struct PeerAddr {
    pub ip: u128,
    pub port: u16,
}

impl DeepView for PeerAddr {
    type V = PeerAddr;

    open spec fn deep_view(&self) -> PeerAddr {
        *self
    }
}

/// What the session knows of one player.
#[derive(Debug)]
pub struct PlayerInfo {
    pub address: PeerAddr,
    pub name: String,
    /// Highest tick for which a batch of this player was accepted.
    pub last_tick_received: u64,
    /// Last measured round trip, for diagnostics only.
    pub ping_ms: u32,
}

/// Model of a [`PlayerInfo`].
pub ghost struct PeerModel {
    pub address: PeerAddr,
    pub name: Seq<char>,
    pub last_tick_received: u64,
    pub ping_ms: u32,
}

pub open spec fn peer_model(p: PlayerInfo) -> PeerModel {
    PeerModel {
        address: p.address,
        name: p.name@,
        last_tick_received: p.last_tick_received,
        ping_ms: p.ping_ms,
    }
}

/// Life cycle of a session.  `Closed` is final.
#[derive(Clone, Copy, Debug, PartialEq, Eq, Structural)]
pub enum SessionState {
    Idle,
    Hosting,
    Joining,
    Connected,
    Closed,
}

/// Commands buffered for one tick and one player, as `(tick, player, commands)`.
pub type BatchModel = (u64, u8, Seq<Seq<u8>>);

/// The commands that the buffer `q` holds for `(t, p)`: the last entry for that
/// key wins (the scheduler never stores two).
pub open spec fn lookup(q: Seq<BatchModel>, t: u64, p: u8) -> Option<Seq<Seq<u8>>>
    decreases q.len(),
{
    if q.len() == 0 {
        None
    } else if q.last().0 == t && q.last().1 == p {
        Some(q.last().2)
    } else {
        lookup(q.drop_last(), t, p)
    }
}

/// The buffer `q` as a map from `(tick, player)` to commands.
pub open spec fn pending_map(q: Seq<BatchModel>) -> Map<(u64, u8), Seq<Seq<u8>>> {
    Map::new(|k: (u64, u8)| lookup(q, k.0, k.1) is Some, |k: (u64, u8)| lookup(q, k.0, k.1)->Some_0)
}

/// Model of a [`LockstepNetwork`].
pub ghost struct LockstepModel {
    pub state: SessionState,
    pub is_host: bool,
    pub local_player_id: u8,
    pub local_name: Seq<char>,
    pub host_addr: Option<PeerAddr>,
    pub current_tick: u64,
    /// The peer directory, by player id (the local player included once known).
    pub peers: Map<u8, PeerModel>,
    /// Commands waiting for their tick, by `(tick, player)`.
    pub pending: Map<(u64, u8), Seq<Seq<u8>>>,
    /// The checksums received so far, compared per tick.
    pub detector: DetectorModel,
    /// Divergences found and not yet taken by the application.
    pub desync_events: Seq<DesyncEvent>,
}

/// Every buffered batch belongs to a known player, who has acknowledged its
/// tick; a session that has not started hosting or been welcomed knows nobody.
pub open spec fn model_wf(m: LockstepModel) -> bool {
    &&& forall|k: (u64, u8)| #[trigger]
        m.pending.contains_key(k) ==> m.peers.contains_key(k.1) && k.0
            <= m.peers[k.1].last_tick_received
    &&& (m.state == SessionState::Idle || m.state == SessionState::Joining) ==> forall|p: u8|
        !#[trigger] m.peers.contains_key(p)
    &&& m.is_host ==> m.state != SessionState::Idle && m.state != SessionState::Joining
}

/// What [`LockstepNetwork::ingest_remote`] did with a batch.
#[derive(Clone, Copy, Debug, PartialEq, Eq, Structural)]
pub enum IngestOutcome {
    /// Stored for its tick.
    Accepted,
    /// A batch for that tick and player was already stored; nothing changed.
    Duplicate,
    /// Its tick was already consumed; discarded (a known sender's
    /// acknowledged tick still rises to it).
    Stale,
    /// It names a player the session does not know; discarded.
    UnknownPeer,
}

pub open spec fn ingest_outcome(m: LockstepModel, b: BatchModel) -> IngestOutcome {
    if b.0 < m.current_tick {
        IngestOutcome::Stale
    } else if !m.peers.contains_key(b.1) {
        IngestOutcome::UnknownPeer
    } else if m.pending.contains_key((b.0, b.1)) {
        IngestOutcome::Duplicate
    } else {
        IngestOutcome::Accepted
    }
}

/// `p` with its last acknowledged tick raised to at least `t`.
pub open spec fn acknowledge(p: PeerModel, t: u64) -> PeerModel {
    PeerModel {
        last_tick_received: if t > p.last_tick_received { t } else { p.last_tick_received },
        ..p
    }
}

/// The session after receiving batch `b`: stored unless stale, from an unknown
/// player, or a repeat of a stored `(tick, player)`.  Whenever the sender is
/// known, stale batch or not, its acknowledged tick becomes the larger of the
/// old one and the batch's.
pub open spec fn ingest_model(m: LockstepModel, b: BatchModel) -> LockstepModel {
    if !m.peers.contains_key(b.1) {
        m
    } else if b.0 < m.current_tick {
        LockstepModel { peers: m.peers.insert(b.1, acknowledge(m.peers[b.1], b.0)), ..m }
    } else {
        LockstepModel {
            pending: if m.pending.contains_key((b.0, b.1)) {
                m.pending
            } else {
                m.pending.insert((b.0, b.1), b.2)
            },
            peers: m.peers.insert(b.1, acknowledge(m.peers[b.1], b.0)),
            ..m
        }
    }
}

proof fn lemma_lookup_push(q: Seq<BatchModel>, e: BatchModel, t: u64, p: u8)
    ensures
        lookup(q.push(e), t, p) == if e.0 == t && e.1 == p {
            Some(e.2)
        } else {
            lookup(q, t, p)
        },
{
    assert(q.push(e).drop_last() =~= q);
}

/// Every known player has a batch buffered for the current tick.
pub open spec fn all_present(m: LockstepModel) -> bool {
    forall|p: u8| #[trigger] m.peers.contains_key(p) ==> m.pending.contains_key((m.current_tick, p))
}

/// Every known player has acknowledged a tick less than `MAX_TICK_LEAD` behind
/// the current one: `current_tick - min(last_tick_received) < MAX_TICK_LEAD`.
pub open spec fn within_lead(m: LockstepModel) -> bool {
    forall|p: u8| #[trigger]
        m.peers.contains_key(p) ==> m.current_tick < m.peers[p].last_tick_received + MAX_TICK_LEAD
}

/// `advance` moves on: with every player's commands, or without some of
/// them while the lead allows it.
pub open spec fn may_advance(m: LockstepModel) -> bool {
    &&& m.current_tick < u64::MAX
    &&& all_present(m) || within_lead(m)
}

/// The batches for tick `t` of the players below `n`, in ascending player order.
pub open spec fn merged_upto(pending: Map<(u64, u8), Seq<Seq<u8>>>, t: u64, n: int) -> Seq<
    (u8, Seq<Seq<u8>>),
>
    decreases n,
{
    if n <= 0 {
        Seq::empty()
    } else {
        let p = (n - 1) as u8;
        merged_upto(pending, t, n - 1) + if pending.contains_key((t, p)) {
            seq![(p, pending[(t, p)])]
        } else {
            Seq::empty()
        }
    }
}

/// The commands of tick `t`, as `(player, commands)` in ascending player order.
pub open spec fn merged(pending: Map<(u64, u8), Seq<Seq<u8>>>, t: u64) -> Seq<(u8, Seq<Seq<u8>>)> {
    merged_upto(pending, t, MAX_PLAYERS as int)
}

/// `pending` without the batches of tick `t`.
pub open spec fn drop_tick(pending: Map<(u64, u8), Seq<Seq<u8>>>, t: u64) -> Map<
    (u64, u8),
    Seq<Seq<u8>>,
> {
    Map::new(|k: (u64, u8)| pending.contains_key(k) && k.0 != t, |k: (u64, u8)| pending[k])
}

/// Replay roster entries, as models, of the known players below `n`, in
/// ascending id order: id, name, the id's colour, race "Default", human.
pub open spec fn roster_upto(m: LockstepModel, n: int) -> Seq<
    (u8, Seq<char>, (u8, u8, u8, u8), Seq<char>, bool),
>
    decreases n,
{
    if n <= 0 {
        Seq::empty()
    } else {
        let p = (n - 1) as u8;
        roster_upto(m, n - 1) + if m.peers.contains_key(p) {
            seq![(p, m.peers[p].name, color_of(p).deep_view(), "Default"@, true)]
        } else {
            Seq::empty()
        }
    }
}

/// The session after `close`: closed for good, with no players, no buffered
/// batches, no host address and no host role.
pub open spec fn closed_model(m: LockstepModel) -> LockstepModel {
    LockstepModel {
        state: SessionState::Closed,
        is_host: false,
        host_addr: None,
        peers: Map::empty(),
        pending: Map::empty(),
        ..m
    }
}

/// The session after `advance` consumed the current tick.
pub open spec fn advance_model(m: LockstepModel) -> LockstepModel {
    LockstepModel {
        current_tick: (m.current_tick + 1) as u64,
        pending: drop_tick(m.pending, m.current_tick),
        ..m
    }
}

/// The entries of `q` whose tick is not `t`, in order.
pub open spec fn filter_tick(q: Seq<BatchModel>, t: u64) -> Seq<BatchModel>
    decreases q.len(),
{
    if q.len() == 0 {
        q
    } else if q.last().0 == t {
        filter_tick(q.drop_last(), t)
    } else {
        filter_tick(q.drop_last(), t).push(q.last())
    }
}

proof fn lemma_lookup_filter(q: Seq<BatchModel>, t: u64, t2: u64, p: u8)
    ensures
        lookup(filter_tick(q, t), t2, p) == if t2 == t {
            None
        } else {
            lookup(q, t2, p)
        },
    decreases q.len(),
{
    if q.len() > 0 {
        lemma_lookup_filter(q.drop_last(), t, t2, p);
        if q.last().0 != t {
            lemma_lookup_push(filter_tick(q.drop_last(), t), q.last(), t2, p);
        }
    }
}

/// Receiving the same batch a second time changes nothing: the session after
/// two deliveries equals the session after one.
pub proof fn lemma_ingest_idempotent(m: LockstepModel, b: BatchModel)
    ensures
        ingest_model(ingest_model(m, b), b) == ingest_model(m, b),
{
    let m1 = ingest_model(m, b);
    if m.peers.contains_key(b.1) {
        assert(m1.peers.insert(b.1, acknowledge(m1.peers[b.1], b.0)) =~= m1.peers);
        assert(ingest_model(m1, b) =~= m1);
    }
}

/// Two batches for different `(tick, player)` keys (or the same batch twice)
/// leave the session in the same state whichever arrives first.
pub proof fn lemma_ingest_commutes(m: LockstepModel, a: BatchModel, b: BatchModel)
    requires
        a.0 != b.0 || a.1 != b.1 || a == b,
    ensures
        ingest_model(ingest_model(m, a), b) == ingest_model(ingest_model(m, b), a),
{
    let mab = ingest_model(ingest_model(m, a), b);
    let mba = ingest_model(ingest_model(m, b), a);
    if a == b {
    } else {
        assert(mab.pending =~= mba.pending);
        assert(mab.peers =~= mba.peers);
        assert(mab =~= mba);
    }
}

/// The session after receiving the batches of `bs`, in order.
pub open spec fn ingest_seq(m: LockstepModel, bs: Seq<BatchModel>) -> LockstepModel
    decreases bs.len(),
{
    if bs.len() == 0 {
        m
    } else {
        ingest_model(ingest_seq(m, bs.drop_last()), bs.last())
    }
}

/// Batch `b` is not stale and comes from a known player.
pub open spec fn admissible(m: LockstepModel, b: BatchModel) -> bool {
    b.0 >= m.current_tick && m.peers.contains_key(b.1)
}

/// What receiving the batches of `bs` in any order makes of `m`, as `r`
/// records it: the same role, tick and players; each player's acknowledged
/// tick the largest of its old one and those of all its batches; and
/// for each new `(tick, player)` key the commands of one of its batches.
pub open spec fn received_all(m: LockstepModel, bs: Seq<BatchModel>, r: LockstepModel) -> bool {
    &&& r.state == m.state
    &&& r.is_host == m.is_host
    &&& r.local_player_id == m.local_player_id
    &&& r.local_name == m.local_name
    &&& r.host_addr == m.host_addr
    &&& r.current_tick == m.current_tick
    &&& r.detector == m.detector
    &&& r.desync_events == m.desync_events
    &&& r.peers.dom() == m.peers.dom()
    &&& forall|p: u8| #[trigger]
        m.peers.contains_key(p) ==> {
            let a = r.peers[p].last_tick_received;
            &&& r.peers[p] == PeerModel { last_tick_received: a, ..m.peers[p] }
            &&& a >= m.peers[p].last_tick_received
            &&& forall|b: BatchModel| #[trigger]
                bs.contains(b) && b.1 == p ==> a >= b.0
            &&& a == m.peers[p].last_tick_received || exists|b: BatchModel| #[trigger]
                bs.contains(b) && b.1 == p && a == b.0
        }
    &&& forall|k: (u64, u8)| #[trigger]
        r.pending.contains_key(k) <==> (m.pending.contains_key(k) || exists|b: BatchModel| #[trigger]
            bs.contains(b) && admissible(m, b) && (b.0, b.1) == k)
    &&& forall|k: (u64, u8)| #[trigger]
        r.pending.contains_key(k) ==> if m.pending.contains_key(k) {
            r.pending[k] == m.pending[k]
        } else {
            exists|b: BatchModel| #[trigger]
                bs.contains(b) && admissible(m, b) && (b.0, b.1) == k && r.pending[k] == b.2
        }
}

proof fn lemma_contains_last(bs: Seq<BatchModel>, b: BatchModel)
    requires
        bs.len() > 0,
    ensures
        bs.contains(b) <==> (bs.drop_last().contains(b) || b == bs.last()),
{
    if bs.contains(b) {
        let i = choose|i: int| 0 <= i < bs.len() && bs[i] == b;
        if i < bs.len() - 1 {
            assert(bs.drop_last()[i] == b);
        }
    }
    if bs.drop_last().contains(b) {
        let i = choose|i: int| 0 <= i < bs.drop_last().len() && bs.drop_last()[i] == b;
        assert(bs[i] == b);
    }
    if b == bs.last() {
        assert(bs[bs.len() - 1] == b);
    }
}

proof fn lemma_ingest_seq_received(m: LockstepModel, bs: Seq<BatchModel>)
    ensures
        received_all(m, bs, ingest_seq(m, bs)),
    decreases bs.len(),
{
    if bs.len() == 0 {
        assert(ingest_seq(m, bs).peers.dom() =~= m.peers.dom());
        assert forall|p: u8| #[trigger] m.peers.contains_key(p) implies ingest_seq(m, bs).peers[p]
            == (PeerModel { last_tick_received: ingest_seq(m, bs).peers[p].last_tick_received, ..m.peers[p] }) by {
        }
    } else {
        let d = bs.drop_last();
        let b = bs.last();
        lemma_ingest_seq_received(m, d);
        let r0 = ingest_seq(m, d);
        let r = ingest_seq(m, bs);
        assert(r == ingest_model(r0, b));
        assert forall|x: BatchModel| bs.contains(x) <==> (d.contains(x) || x == b) by {
            lemma_contains_last(bs, x);
        }
        assert(admissible(m, b) == (b.0 >= r0.current_tick && r0.peers.contains_key(b.1)));
        assert(r.peers.dom() =~= m.peers.dom());
        assert forall|p: u8| #[trigger] m.peers.contains_key(p) implies {
            let a = r.peers[p].last_tick_received;
            &&& r.peers[p] == PeerModel { last_tick_received: a, ..m.peers[p] }
            &&& a >= m.peers[p].last_tick_received
            &&& forall|x: BatchModel| #[trigger]
                bs.contains(x) && x.1 == p ==> a >= x.0
            &&& a == m.peers[p].last_tick_received || exists|x: BatchModel| #[trigger]
                bs.contains(x) && x.1 == p && a == x.0
        } by {
            let a0 = r0.peers[p].last_tick_received;
            let a = r.peers[p].last_tick_received;
            if a != m.peers[p].last_tick_received {
                if a == a0 {
                    let w = choose|x: BatchModel| #[trigger]
                        d.contains(x) && x.1 == p && a0 == x.0;
                    assert(bs.contains(w));
                } else {
                    assert(bs.contains(b) && b.1 == p && a == b.0);
                }
            }
            assert forall|x: BatchModel| #[trigger]
                bs.contains(x) && x.1 == p implies a >= x.0 by {
                if d.contains(x) {
                    assert(a0 >= x.0);
                }
            }
        }
        assert forall|k: (u64, u8)| #[trigger]
            r.pending.contains_key(k) <==> (m.pending.contains_key(k) || exists|x: BatchModel| #[trigger]
                bs.contains(x) && admissible(m, x) && (x.0, x.1) == k) by {
            if r.pending.contains_key(k) && !m.pending.contains_key(k) {
                if r0.pending.contains_key(k) {
                    let w = choose|x: BatchModel| #[trigger]
                        d.contains(x) && admissible(m, x) && (x.0, x.1) == k;
                    assert(bs.contains(w));
                } else {
                    assert(bs.contains(b) && admissible(m, b) && (b.0, b.1) == k);
                }
            }
            if exists|x: BatchModel| #[trigger] bs.contains(x) && admissible(m, x) && (x.0, x.1) == k {
                let w = choose|x: BatchModel| #[trigger]
                    bs.contains(x) && admissible(m, x) && (x.0, x.1) == k;
                if w != b {
                    assert(d.contains(w));
                }
            }
        }
        assert forall|k: (u64, u8)| #[trigger] r.pending.contains_key(k) implies if m.pending.contains_key(k) {
            r.pending[k] == m.pending[k]
        } else {
            exists|x: BatchModel| #[trigger]
                bs.contains(x) && admissible(m, x) && (x.0, x.1) == k && r.pending[k] == x.2
        } by {
            if !m.pending.contains_key(k) {
                if r0.pending.contains_key(k) {
                    let w = choose|x: BatchModel| #[trigger]
                        d.contains(x) && admissible(m, x) && (x.0, x.1) == k && r0.pending[k] == x.2;
                    assert(bs.contains(w));
                } else {
                    assert(bs.contains(b) && admissible(m, b) && (b.0, b.1) == k && r.pending[k] == b.2);
                }
            }
        }
    }
}

/// However a fixed set of batches is delivered (in any order, any of them
/// repeated), the session ends in the same state, provided no two of them
/// disagree on the commands of a `(tick, player)` key.
pub proof fn lemma_delivery_order_irrelevant(m: LockstepModel, bs1: Seq<BatchModel>, bs2: Seq<BatchModel>)
    requires
        forall|b: BatchModel| bs1.contains(b) <==> bs2.contains(b),
        forall|a: BatchModel, b: BatchModel|
            bs1.contains(a) && bs1.contains(b) && a.0 == b.0 && a.1 == b.1 ==> a == b,
    ensures
        ingest_seq(m, bs1) == ingest_seq(m, bs2),
{
    lemma_ingest_seq_received(m, bs1);
    lemma_ingest_seq_received(m, bs2);
    let r1 = ingest_seq(m, bs1);
    let r2 = ingest_seq(m, bs2);
    assert forall|p: u8| #[trigger] r1.peers.contains_key(p) implies r1.peers[p] == r2.peers[p] by {
        let a1 = r1.peers[p].last_tick_received;
        let a2 = r2.peers[p].last_tick_received;
        if a1 != m.peers[p].last_tick_received {
            let w = choose|x: BatchModel| #[trigger]
                bs1.contains(x) && x.1 == p && a1 == x.0;
            assert(bs2.contains(w));
        }
        if a2 != m.peers[p].last_tick_received {
            let w = choose|x: BatchModel| #[trigger]
                bs2.contains(x) && x.1 == p && a2 == x.0;
            assert(bs1.contains(w));
        }
    }
    assert(r1.peers =~= r2.peers);
    assert forall|k: (u64, u8)| #[trigger] r1.pending.contains_key(k) implies r2.pending.contains_key(k)
        && r1.pending[k] == r2.pending[k] by {
        if !m.pending.contains_key(k) {
            let w1 = choose|x: BatchModel| #[trigger]
                bs1.contains(x) && admissible(m, x) && (x.0, x.1) == k && r1.pending[k] == x.2;
            assert(bs2.contains(w1) && admissible(m, w1) && (w1.0, w1.1) == k);
            assert(r2.pending.contains_key(k));
            let w2 = choose|x: BatchModel| #[trigger]
                bs2.contains(x) && admissible(m, x) && (x.0, x.1) == k && r2.pending[k] == x.2;
            assert(bs1.contains(w2));
        }
    }
    assert forall|k: (u64, u8)| #[trigger] r2.pending.contains_key(k) implies r1.pending.contains_key(k) by {
        if !m.pending.contains_key(k) {
            assert(exists|x: BatchModel| #[trigger]
                bs2.contains(x) && admissible(m, x) && (x.0, x.1) == k);
            let w2 = choose|x: BatchModel| #[trigger]
                bs2.contains(x) && admissible(m, x) && (x.0, x.1) == k;
            assert(bs1.contains(w2));
        }
    }
    assert(r1.pending =~= r2.pending);
    assert(r1 =~= r2);
}

/// A batch for a tick already consumed is dropped (only its sender's
/// acknowledged tick may rise), while a batch from a known player for the
/// current tick or a later one is buffered for that tick, whichever of the
/// two arrives first.
pub proof fn lemma_future_kept_stale_dropped(m: LockstepModel, future: BatchModel, stale: BatchModel)
    requires
        future.0 >= m.current_tick,
        stale.0 < m.current_tick,
        m.peers.contains_key(future.1),
        !m.pending.contains_key((future.0, future.1)),
    ensures
        ingest_model(ingest_model(m, future), stale).current_tick == m.current_tick,
        ingest_model(ingest_model(m, future), stale).pending == m.pending.insert(
            (future.0, future.1),
            future.2,
        ),
        ingest_model(ingest_model(m, stale), future).pending == m.pending.insert(
            (future.0, future.1),
            future.2,
        ),
{
}

/// What `advance` hands out at tick `t` is exactly the batches buffered for
/// `t`: each of them, under its player, and nothing else.
pub proof fn lemma_merged_is_tick_batches(pending: Map<(u64, u8), Seq<Seq<u8>>>, t: u64)
    ensures
        forall|p: u8| #[trigger]
            pending.contains_key((t, p)) ==> merged(pending, t).contains((p, pending[(t, p)])),
        forall|x: (u8, Seq<Seq<u8>>)| #[trigger]
            merged(pending, t).contains(x) ==> pending.contains_key((t, x.0)) && pending[(t, x.0)]
                == x.1,
{
    assert forall|p: u8| #[trigger] pending.contains_key((t, p)) implies merged(pending, t).contains(
        (p, pending[(t, p)]),
    ) by {
        lemma_merged_upto_contains(pending, t, MAX_PLAYERS as int, p);
    }
    assert forall|x: (u8, Seq<Seq<u8>>)| #[trigger] merged(pending, t).contains(x) implies pending.contains_key(
        (t, x.0),
    ) && pending[(t, x.0)] == x.1 by {
        lemma_merged_upto_from_pending(pending, t, MAX_PLAYERS as int, x);
    }
}

proof fn lemma_merged_upto_contains(pending: Map<(u64, u8), Seq<Seq<u8>>>, t: u64, n: int, q: u8)
    requires
        q < n <= MAX_PLAYERS,
        pending.contains_key((t, q)),
    ensures
        merged_upto(pending, t, n).contains((q, pending[(t, q)])),
    decreases n,
{
    let pre = merged_upto(pending, t, n - 1);
    let whole = merged_upto(pending, t, n);
    if q == n - 1 {
        assert(((n - 1) as u8) == q);
        assert(whole == pre + seq![(q, pending[(t, q)])]);
        assert(whole[pre.len() as int] == (q, pending[(t, q)]));
    } else {
        lemma_merged_upto_contains(pending, t, n - 1, q);
        let i = choose|i: int| 0 <= i < pre.len() && pre[i] == (q, pending[(t, q)]);
        assert(whole[i] == pre[i]);
    }
}

proof fn lemma_merged_upto_from_pending(
    pending: Map<(u64, u8), Seq<Seq<u8>>>,
    t: u64,
    n: int,
    x: (u8, Seq<Seq<u8>>),
)
    requires
        merged_upto(pending, t, n).contains(x),
    ensures
        pending.contains_key((t, x.0)) && pending[(t, x.0)] == x.1,
    decreases n,
{
    if n > 0 {
        let pre = merged_upto(pending, t, n - 1);
        let whole = merged_upto(pending, t, n);
        let i = choose|i: int| 0 <= i < whole.len() && whole[i] == x;
        if i < pre.len() {
            assert(pre[i] == x);
            lemma_merged_upto_from_pending(pending, t, n - 1, x);
        }
    }
}

/// The merged commands of tick `t` depend on the batches buffered for `t`
/// alone: two sessions that hold the same ones hand out the same sequence.
pub proof fn lemma_merge_deterministic(
    left: Map<(u64, u8), Seq<Seq<u8>>>,
    right: Map<(u64, u8), Seq<Seq<u8>>>,
    t: u64,
)
    requires
        forall|p: u8| #[trigger] left.contains_key((t, p)) == right.contains_key((t, p)),
        forall|p: u8| #[trigger] left.contains_key((t, p)) ==> left[(t, p)] == right[(t, p)],
    ensures
        merged(left, t) == merged(right, t),
{
    lemma_merged_upto_agree(left, right, t, MAX_PLAYERS as int);
}

proof fn lemma_merged_upto_agree(
    left: Map<(u64, u8), Seq<Seq<u8>>>,
    right: Map<(u64, u8), Seq<Seq<u8>>>,
    t: u64,
    n: int,
)
    requires
        forall|p: u8| #[trigger] left.contains_key((t, p)) == right.contains_key((t, p)),
        forall|p: u8| #[trigger] left.contains_key((t, p)) ==> left[(t, p)] == right[(t, p)],
    ensures
        merged_upto(left, t, n) == merged_upto(right, t, n),
    decreases n,
{
    if n > 0 {
        lemma_merged_upto_agree(left, right, t, n - 1);
        let p = (n - 1) as u8;
        assert(left.contains_key((t, p)) == right.contains_key((t, p)));
    }
}

/// The outcome of handling a batch of received packets.
pub struct PacketReport {
    /// Messages to send, each with its destination.
    pub sends: Vec<(PeerAddr, NetworkMessage)>,
    /// The messages the session accepted, in arrival order.
    pub delivered: Vec<NetworkMessage>,
    /// Packets that encode no message.
    pub decode_errors: usize,
    /// Messages the session refused.
    pub protocol_errors: usize,
}

/// A directory with every player id free.
fn empty_directory() -> (r: Vec<Option<PlayerInfo>>)
    ensures
        r@.len() == MAX_PLAYERS,
        forall|j: int| 0 <= j < MAX_PLAYERS ==> r@[j] is None,
{
    let mut players: Vec<Option<PlayerInfo>> = Vec::new();
    let mut i: usize = 0;
    while i < MAX_PLAYERS
        invariant
            i <= MAX_PLAYERS,
            players@.len() == i,
            forall|j: int| 0 <= j < i ==> players@[j] is None,
        decreases MAX_PLAYERS - i,
    {
        players.push(None);
        i = i + 1;
    }
    players
}

/// The scheduler, peer directory and role of one session.
pub struct LockstepNetwork {
    state: SessionState,
    is_host: bool,
    local_player_id: u8,
    local_name: String,
    host_addr: Option<PeerAddr>,
    current_tick: u64,
    /// Indexed by player id; always `MAX_PLAYERS` long.
    players: Vec<Option<PlayerInfo>>,
    /// Pending batches; at most one per `(tick, player)`.
    command_queue: Vec<NetworkCommand>,
    detector: DesyncDetector,
    desync_events: Vec<DesyncEvent>,
}

impl View for LockstepNetwork {
    type V = LockstepModel;

    closed spec fn view(&self) -> LockstepModel {
        LockstepModel {
            state: self.state,
            is_host: self.is_host,
            local_player_id: self.local_player_id,
            local_name: self.local_name@,
            host_addr: self.host_addr,
            current_tick: self.current_tick,
            peers: Map::new(
                |id: u8| self.players@[id as int] is Some,
                |id: u8| peer_model(self.players@[id as int]->Some_0),
            ),
            pending: pending_map(self.command_queue.deep_view()),
            detector: self.detector@,
            desync_events: self.desync_events@,
        }
    }
}

impl LockstepNetwork {
    /// The representation holds one directory slot per player id, and the
    /// model invariant.
    pub closed spec fn wf(&self) -> bool {
        &&& self.players@.len() == MAX_PLAYERS
        &&& model_wf(self@)
    }

    /// A session that is neither hosting nor joined, at tick 0, knowing nobody.
    pub fn new() -> (r: Self)
        ensures
            r.wf(),
            r@.state == SessionState::Idle,
            !r@.is_host,
            r@.local_player_id == 0,
            r@.local_name == Seq::<char>::empty(),
            r@.host_addr is None,
            r@.current_tick == 0,
            r@.peers == Map::<u8, PeerModel>::empty(),
            r@.pending == Map::<(u64, u8), Seq<Seq<u8>>>::empty(),
            r@.detector.reports == Seq::<ReportModel>::empty(),
            r@.detector.flagged == Seq::<u64>::empty(),
            r@.desync_events == Seq::<DesyncEvent>::empty(),
    {
        let players = empty_directory();
        let r = LockstepNetwork {
            state: SessionState::Idle,
            is_host: false,
            local_player_id: 0,
            local_name: String::new(),
            host_addr: None,
            current_tick: 0,
            players,
            command_queue: Vec::new(),
            detector: DesyncDetector::new(),
            desync_events: Vec::new(),
        };
        proof {
            assert(r@.peers =~= Map::<u8, PeerModel>::empty());
            assert(r.command_queue.deep_view() =~= Seq::<BatchModel>::empty());
            assert(r@.pending =~= Map::<(u64, u8), Seq<Seq<u8>>>::empty());
        }
        r
    }

    /// Index in the queue of the batch for `(t, p)`, if one is stored.
    fn find_batch(&self, t: u64, p: u8) -> (r: Option<usize>)
        ensures
            match r {
                Some(i) => i < self.command_queue@.len() && self.command_queue@[i as int].tick == t
                    && self.command_queue@[i as int].player_id == p && lookup(
                    self.command_queue.deep_view(),
                    t,
                    p,
                ) == Some(self.command_queue.deep_view()[i as int].2),
                None => lookup(self.command_queue.deep_view(), t, p) is None,
            },
    {
        let ghost q = self.command_queue.deep_view();
        let mut i: usize = self.command_queue.len();
        proof {
            assert(q.take(i as int) =~= q);
        }
        while i > 0
            invariant
                i <= self.command_queue@.len(),
                q == self.command_queue.deep_view(),
                lookup(q, t, p) == lookup(q.take(i as int), t, p),
            decreases i,
        {
            let e = &self.command_queue[i - 1];
            proof {
                assert(q.take(i as int).drop_last() =~= q.take(i - 1));
            }
            if e.tick == t && e.player_id == p {
                return Some(i - 1);
            }
            i = i - 1;
        }
        None
    }

    /// Whether player `p` is in the directory.
    fn knows(&self, p: u8) -> (r: bool)
        requires
            self.wf(),
        ensures
            r == self@.peers.contains_key(p),
    {
        self.players[p as usize].is_some()
    }

    /// Receives a batch from the network.  It is stored for its tick unless
    /// that tick was already consumed, its sender is unknown, or a batch for
    /// that tick and sender is already stored; repeats change nothing.  A
    /// known sender's acknowledged tick rises to the batch's tick, even when
    /// the batch itself comes too late to be stored.
    pub fn ingest_remote(&mut self, batch: NetworkCommand) -> (r: IngestOutcome)
        requires
            old(self).wf(),
        ensures
            final(self).wf(),
            r == ingest_outcome(old(self)@, batch.deep_view()),
            final(self)@ == ingest_model(old(self)@, batch.deep_view()),
    {
        let t = batch.tick;
        let p = batch.player_id;
        if !self.knows(p) {
            return if t < self.current_tick {
                IngestOutcome::Stale
            } else {
                IngestOutcome::UnknownPeer
            };
        }
        let ghost old_model = self@;
        let outcome = if t < self.current_tick {
            IngestOutcome::Stale
        } else {
            match self.find_batch(t, p) {
            Some(_) => IngestOutcome::Duplicate,
            None => {
                let ghost q = self.command_queue.deep_view();
                self.command_queue.push(batch);
                proof {
                    assert(self.command_queue.deep_view() =~= q.push(batch.deep_view()));
                    assert forall|k: (u64, u8)|
                        lookup(self.command_queue.deep_view(), k.0, k.1) == if k == (t, p) {
                            Some(batch.deep_view().2)
                        } else {
                            lookup(q, k.0, k.1)
                        } by {
                        lemma_lookup_push(q, batch.deep_view(), k.0, k.1);
                    }
                    assert(pending_map(self.command_queue.deep_view()) =~= old_model.pending.insert(
                        (t, p),
                        batch.deep_view().2,
                    ));
                }
                IngestOutcome::Accepted
            },
            }
        };
        let ack = self.players[p as usize].as_ref().unwrap().last_tick_received;
        if t > ack {
            self.players[p as usize].as_mut().unwrap().last_tick_received = t;
        }
        proof {
            assert(self@.peers =~= old_model.peers.insert(p, acknowledge(old_model.peers[p], t)));
            assert(self@ =~= ingest_model(old_model, batch.deep_view()));
        }
        outcome
    }

    /// Whether `advance` would refuse to move: some player is missing from the
    /// current tick and lags `MAX_TICK_LEAD` or more ticks behind.
    pub fn waiting_for_players(&self) -> (r: bool)
        requires
            self.wf(),
        ensures
            r == !may_advance(self@),
    {
        let t = self.current_tick;
        if t == u64::MAX {
            return true;
        }
        let mut present = true;
        let mut lead_ok = true;
        let mut p: usize = 0;
        while p < MAX_PLAYERS
            invariant
                self.wf(),
                t == self@.current_tick,
                p <= MAX_PLAYERS,
                present ==> forall|q: u8| #![trigger self@.peers.contains_key(q)]
                    q < p && self@.peers.contains_key(q) ==> self@.pending.contains_key((t, q)),
                !present ==> exists|q: u8| #![trigger self@.peers.contains_key(q)]
                    q < p && self@.peers.contains_key(q) && !self@.pending.contains_key((t, q)),
                lead_ok ==> forall|q: u8| #![trigger self@.peers.contains_key(q)]
                    q < p && self@.peers.contains_key(q) ==> t < self@.peers[q].last_tick_received
                        + MAX_TICK_LEAD,
                !lead_ok ==> exists|q: u8| #![trigger self@.peers.contains_key(q)]
                    q < p && self@.peers.contains_key(q) && !(t < self@.peers[q].last_tick_received
                        + MAX_TICK_LEAD),
            decreases MAX_PLAYERS - p,
        {
            let id = p as u8;
            let ghost prev_present = present;
            let ghost prev_lead_ok = lead_ok;
            proof {
                assert(id as int == p as int);
                assert(self@.peers.contains_key(id) == self.players@[p as int] is Some);
            }
            match &self.players[p] {
                Some(info) => {
                    if self.find_batch(t, id).is_none() {
                        present = false;
                    }
                    let ack = info.last_tick_received;
                    proof {
                        assert(self@.peers[id].last_tick_received == ack);
                    }
                    if ack < t && t - ack >= MAX_TICK_LEAD {
                        lead_ok = false;
                    }
                },
                None => {},
            }
            proof {
                if present {
                    assert forall|q: u8| #![trigger self@.peers.contains_key(q)]
                        q < p + 1 && self@.peers.contains_key(q) implies self@.pending.contains_key(
                        (t, q),
                    ) by {
                        if q >= p {
                            assert(q == id);
                        }
                    }
                } else if prev_present {
                    assert(self@.peers.contains_key(id) && !self@.pending.contains_key((t, id)));
                }
                if lead_ok {
                    assert forall|q: u8| #![trigger self@.peers.contains_key(q)]
                        q < p + 1 && self@.peers.contains_key(q) implies t
                        < self@.peers[q].last_tick_received + MAX_TICK_LEAD by {
                        if q >= p {
                            assert(q == id);
                        }
                    }
                } else if prev_lead_ok {
                    assert(self@.peers.contains_key(id) && !(t < self@.peers[id].last_tick_received
                        + MAX_TICK_LEAD));
                }
            }
            p = p + 1;
        }
        !(present || lead_ok)
    }

    /// The commands buffered for tick `t`, in ascending player order.
    fn merge_tick(&self, t: u64) -> (r: Vec<PlayerTickCommands>)
        requires
            self.wf(),
        ensures
            r.deep_view() == merged(self@.pending, t),
    {
        let mut out: Vec<PlayerTickCommands> = Vec::new();
        let mut p: usize = 0;
        while p < MAX_PLAYERS
            invariant
                p <= MAX_PLAYERS,
                out.deep_view() == merged_upto(self@.pending, t, p as int),
            decreases MAX_PLAYERS - p,
        {
            let id = p as u8;
            let ghost prev = out.deep_view();
            match self.find_batch(t, id) {
                Some(i) => {
                    let entry = PlayerTickCommands {
                        player_id: id,
                        commands: copy_commands(&self.command_queue[i].commands),
                    };
                    out.push(entry);
                    proof {
                        assert(out.deep_view() =~= prev + seq![(id, self@.pending[(t, id)])]);
                    }
                },
                None => {
                    proof {
                        assert(prev + Seq::<(u8, Seq<Seq<u8>>)>::empty() =~= prev);
                    }
                },
            }
            p = p + 1;
        }
        out
    }

    /// Removes every batch of tick `t` from the buffer.
    fn discard_tick(&mut self, t: u64)
        requires
            old(self).wf(),
        ensures
            final(self).wf(),
            final(self)@ == (LockstepModel { pending: drop_tick(old(self)@.pending, t), ..old(self)@ }),
    {
        let ghost q = self.command_queue.deep_view();
        let ghost old_model = self@;
        let mut kept: Vec<NetworkCommand> = Vec::new();
        let mut i: usize = 0;
        proof {
            assert(kept.deep_view() =~= filter_tick(q.take(0), t));
        }
        while i < self.command_queue.len()
            invariant
                q == self.command_queue.deep_view(),
                i <= q.len(),
                kept.deep_view() == filter_tick(q.take(i as int), t),
            decreases q.len() - i,
        {
            let e = &self.command_queue[i];
            let ghost prev = kept.deep_view();
            proof {
                assert(q.take(i + 1).drop_last() =~= q.take(i as int));
                assert(q.take(i + 1).last() == q[i as int]);
            }
            if e.tick != t {
                let copy = NetworkCommand {
                    tick: e.tick,
                    player_id: e.player_id,
                    commands: copy_commands(&e.commands),
                };
                kept.push(copy);
                proof {
                    assert(kept.deep_view() =~= prev.push(q[i as int]));
                }
            }
            i = i + 1;
        }
        proof {
            assert(q.take(i as int) =~= q);
            assert forall|k: (u64, u8)|
                lookup(kept.deep_view(), k.0, k.1) == if k.0 == t {
                    None
                } else {
                    lookup(q, k.0, k.1)
                } by {
                lemma_lookup_filter(q, t, k.0, k.1);
            }
        }
        self.command_queue = kept;
        proof {
            assert(self@.pending =~= drop_tick(old_model.pending, t));
            assert(self@ =~= (LockstepModel { pending: drop_tick(old_model.pending, t), ..old_model }));
        }
    }

    /// Called once per simulation step.  When every known player's commands
    /// for the current tick are buffered, or when no player lags
    /// `MAX_TICK_LEAD` or more ticks behind, returns the tick's commands in
    /// ascending player order (players without a batch contribute nothing),
    /// drops them from the buffer and moves to the next tick.  Otherwise it
    /// changes nothing and returns `None`: the session waits for players.
    pub fn advance(&mut self) -> (r: Option<Vec<PlayerTickCommands>>)
        requires
            old(self).wf(),
        ensures
            final(self).wf(),
            may_advance(old(self)@) ==> (r matches Some(w) && w.deep_view() == merged(
                old(self)@.pending,
                old(self)@.current_tick,
            ) && final(self)@ == advance_model(old(self)@)),
            !may_advance(old(self)@) ==> r is None && final(self)@ == old(self)@,
            final(self)@.current_tick != old(self)@.current_tick ==> forall|p: u8| #[trigger]
                final(self)@.peers.contains_key(p) ==> final(self)@.current_tick
                    <= final(self)@.peers[p].last_tick_received + MAX_TICK_LEAD,
    {
        if self.waiting_for_players() {
            return None;
        }
        let ghost old_model = self@;
        let t = self.current_tick;
        let commands = self.merge_tick(t);
        self.discard_tick(t);
        self.current_tick = t + 1;
        proof {
            assert(self@ =~= advance_model(old_model));
            assert forall|p: u8| #[trigger] self@.peers.contains_key(p) implies self@.current_tick
                <= self@.peers[p].last_tick_received + MAX_TICK_LEAD by {
                if all_present(old_model) {
                    assert(old_model.pending.contains_key((t, p)));
                }
            }
        }
        Some(commands)
    }

    /// Schedules the local player's commands for tick `current_tick +
    /// lookahead` and returns the batch to broadcast.  Returns `None`, and
    /// changes nothing, when the session is not active (idle or closed), when
    /// that tick does not fit in a `u64`, when the local
    /// player is not in the directory yet, or when a batch is already
    /// scheduled for that tick.
    pub fn schedule_local(&mut self, commands: Vec<Command>, lookahead: u64) -> (r: Option<
        NetworkCommand,
    >)
        requires
            old(self).wf(),
        ensures
            final(self).wf(),
            ({
                let m = old(self)@;
                let target = m.current_tick + lookahead;
                &&& r is Some <==> (is_active_state(m.state) && target <= u64::MAX
                    && m.peers.contains_key(m.local_player_id) && !m.pending.contains_key(
                    (target as u64, m.local_player_id),
                ))
                &&& r matches Some(b) ==> (b.deep_view() == (
                    target as u64,
                    m.local_player_id,
                    commands.deep_view(),
                ) && final(self)@ == ingest_model(m, b.deep_view()))
                &&& r is None ==> final(self)@ == m
            }),
    {
        let ghost m = self@;
        if !self.is_active() {
            return None;
        }
        let target = match self.current_tick.checked_add(lookahead) {
            Some(x) => x,
            None => return None,
        };
        let local = self.local_player_id;
        let out = NetworkCommand { tick: target, player_id: local, commands: copy_commands(&commands) };
        let stored = NetworkCommand { tick: target, player_id: local, commands };
        match self.ingest_remote(stored) {
            IngestOutcome::Accepted => Some(out),
            _ => {
                proof {
                    if m.peers.contains_key(local) {
                        assert(m.pending.contains_key((target, local)));
                        assert(m.peers.insert(local, acknowledge(m.peers[local], target)) =~= m.peers);
                        assert(self@ =~= m);
                    }
                }
                None
            },
        }
    }

    /// Where a message from player `exclude` is relayed.
    fn relay_list(&self, exclude: u8) -> (r: Vec<PeerAddr>)
        requires
            self.wf(),
        ensures
            r@ == relay_targets(self@, exclude),
    {
        let mut out: Vec<PeerAddr> = Vec::new();
        let mut p: usize = 0;
        while p < MAX_PLAYERS
            invariant
                self.wf(),
                p <= MAX_PLAYERS,
                out@ == relay_upto(self@, exclude, p as int),
            decreases MAX_PLAYERS - p,
        {
            let id = p as u8;
            let ghost prev = out@;
            proof {
                assert(id as int == p as int);
                assert(self@.peers.contains_key(id) == self.players@[p as int] is Some);
            }
            match &self.players[p] {
                Some(info) => {
                    if id != exclude && id != self.local_player_id {
                        out.push(info.address);
                        proof {
                            assert(out@ =~= prev + seq![self@.peers[id].address]);
                        }
                    } else {
                        proof {
                            assert(out@ =~= prev + Seq::<PeerAddr>::empty());
                        }
                    }
                },
                None => {
                    proof {
                        assert(out@ =~= prev + Seq::<PeerAddr>::empty());
                    }
                },
            }
            p = p + 1;
        }
        out
    }

    /// The lowest player id recorded at address `a`.
    fn owner_of(&self, a: PeerAddr) -> (r: Option<u8>)
        requires
            self.wf(),
        ensures
            r == addr_owner(self@, a),
    {
        let mut p: usize = 0;
        while p < MAX_PLAYERS
            invariant
                self.wf(),
                p <= MAX_PLAYERS,
                addr_owner_upto(self@, a, p as int) is None,
            decreases MAX_PLAYERS - p,
        {
            let id = p as u8;
            proof {
                assert(id as int == p as int);
                assert(self@.peers.contains_key(id) == self.players@[p as int] is Some);
            }
            match &self.players[p] {
                Some(info) => {
                    if info.address == a {
                        proof {
                            lemma_owner_found(self@, a, p as int + 1);
                        }
                        return Some(id);
                    }
                },
                None => {},
            }
            p = p + 1;
        }
        None
    }

    /// The lowest unused player id from 1.
    fn next_free_id(&self) -> (r: Option<u8>)
        requires
            self.wf(),
        ensures
            r == free_id(self@),
    {
        let mut p: usize = 1;
        while p < MAX_PLAYERS
            invariant
                self.wf(),
                1 <= p <= MAX_PLAYERS,
                free_id_upto(self@, p as int) is None,
            decreases MAX_PLAYERS - p,
        {
            let id = p as u8;
            proof {
                assert(id as int == p as int);
                assert(self@.peers.contains_key(id) == self.players@[p as int] is Some);
            }
            if self.players[p].is_none() {
                proof {
                    lemma_free_found(self@, p as int + 1);
                }
                return Some(id);
            }
            p = p + 1;
        }
        None
    }

    /// Records `info` as player `id`.
    fn put_peer(&mut self, id: u8, info: PlayerInfo)
        requires
            old(self).players@.len() == MAX_PLAYERS,
        ensures
            final(self).players@.len() == MAX_PLAYERS,
            final(self)@ == (LockstepModel {
                peers: old(self)@.peers.insert(id, peer_model(info)),
                ..old(self)@
            }),
    {
        let ghost old_model = self@;
        self.players.set(id as usize, Some(info));
        proof {
            assert(self@.peers =~= old_model.peers.insert(id, peer_model(info)));
            assert(self@ =~= (LockstepModel { peers: old_model.peers.insert(id, peer_model(info)), ..old_model }));
        }
    }

    /// Reacts to message `msg` that arrived from address `src` at clock `now`
    /// (milliseconds): updates the session and returns the messages to send.
    /// A refused message (wrong role or state, unknown player, full
    /// session) changes nothing.
    pub fn handle_message(&mut self, src: PeerAddr, msg: NetworkMessage, now: u64) -> (r: Result<
        Vec<(PeerAddr, NetworkMessage)>,
        ProtocolError,
    >)
        requires
            old(self).wf(),
        ensures
            final(self).wf(),
            handle_model(old(self)@, src, msg.deep_view(), now) == match r {
                Ok(sends) => Ok((final(self)@, sends.deep_view())),
                Err(e) => Err(e),
            },
            r is Err ==> final(self)@ == old(self)@,
    {
        let ghost m = self@;
        if !(self.state == SessionState::Hosting || self.state == SessionState::Joining || self.state
            == SessionState::Connected) {
            return Err(ProtocolError::Unexpected);
        }
        let mut sends: Vec<(PeerAddr, NetworkMessage)> = Vec::new();
        match &msg {
            NetworkMessage::Commands(b) => {
                if !self.is_host && self.state != SessionState::Connected {
                    return Err(ProtocolError::Unexpected);
                }
                let targets = self.relay_list(b.player_id);
                let batch = NetworkCommand {
                    tick: b.tick,
                    player_id: b.player_id,
                    commands: copy_commands(&b.commands),
                };
                match self.ingest_remote(batch) {
                    IngestOutcome::UnknownPeer => {
                        return Err(ProtocolError::UnknownPeer);
                    },
                    IngestOutcome::Accepted => {
                        if self.is_host {
                            sends = address_all(&targets, &msg);
                        }
                    },
                    _ => {},
                }
            },
            NetworkMessage::Hello(h) => {
                if !self.is_host {
                    return Err(ProtocolError::Unexpected);
                }
                let id = match self.next_free_id() {
                    Some(id) => {
                        let info = PlayerInfo {
                            address: src,
                            name: h.player_name.clone(),
                            last_tick_received: self.current_tick,
                            ping_ms: 0,
                        };
                        self.put_peer(id, info);
                        proof {
                            lemma_free_unknown(m, MAX_PLAYERS as int);
                            assert forall|k: (u64, u8)| #[trigger] self@.pending.contains_key(k)
                                implies self@.peers.contains_key(k.1) && k.0
                                <= self@.peers[k.1].last_tick_received by {
                                assert(m.pending.contains_key(k));
                            }
                        }
                        id
                    },
                    None => {
                        return Err(ProtocolError::SessionFull);
                    },
                };
                sends.push((src, NetworkMessage::Welcome { assigned_id: id }));
            },
            NetworkMessage::Welcome { assigned_id } => {
                let id = *assigned_id;
                if self.is_host || self.state != SessionState::Joining || id == 0 {
                    return Err(ProtocolError::Unexpected);
                }
                let tick = self.current_tick;
                let host = PlayerInfo { address: src, name: String::new(), last_tick_received: tick, ping_ms: 0 };
                let me = PlayerInfo {
                    address: PeerAddr { ip: 0, port: 0 },
                    name: self.local_name.clone(),
                    last_tick_received: tick,
                    ping_ms: 0,
                };
                self.put_peer(0, host);
                self.put_peer(id, me);
                self.local_player_id = id;
                self.host_addr = Some(src);
                self.state = SessionState::Connected;
                proof {
                    assert forall|k: (u64, u8)| !#[trigger] self@.pending.contains_key(k) by {
                        if m.pending.contains_key(k) {
                            assert(m.peers.contains_key(k.1));
                        }
                    }
                }
            },
            NetworkMessage::Start { seed: _, start_tick } => {
                if self.is_host || self.state != SessionState::Connected {
                    return Err(ProtocolError::Unexpected);
                }
                if *start_tick > self.current_tick {
                    self.current_tick = *start_tick;
                }
            },
            NetworkMessage::Sync { current_tick } => {
                if self.is_host || self.state != SessionState::Connected {
                    return Err(ProtocolError::Unexpected);
                }
                if *current_tick > self.current_tick {
                    self.current_tick = *current_tick;
                }
            },
            NetworkMessage::Ping(t) => {
                sends.push((src, NetworkMessage::Pong(*t)));
            },
            NetworkMessage::Pong(t) => {
                match self.owner_of(src) {
                    Some(id) => {
                        proof {
                            lemma_owner_known(m, src, MAX_PLAYERS as int);
                            assert(self.players@[id as int] is Some);
                        }
                        let rtt: u32 = if now <= *t {
                            0
                        } else if now - *t > u32::MAX as u64 {
                            u32::MAX
                        } else {
                            (now - *t) as u32
                        };
                        self.players[id as usize].as_mut().unwrap().ping_ms = rtt;
                        proof {
                            assert(self@.peers =~= m.peers.insert(
                                id,
                                PeerModel { ping_ms: latency(now, *t), ..m.peers[id] },
                            ));
                            assert forall|k: (u64, u8)| #[trigger] self@.pending.contains_key(k)
                                implies self@.peers.contains_key(k.1) && k.0
                                <= self@.peers[k.1].last_tick_received by {
                                assert(m.pending.contains_key(k));
                            }
                        }
                    },
                    None => {},
                }
            },
            NetworkMessage::Chat(c) => {
                if self.is_host {
                    let targets = self.relay_list(c.player_id);
                    sends = address_all(&targets, &msg);
                }
            },
            NetworkMessage::GameSync(g) => {
                let mut found = self.detector.record_sync(g);
                let ghost found_view = found@;
                self.desync_events.append(&mut found);
                proof {
                    let (d, evs) = record_all_model(m.detector, g.tick, g.checksums@);
                    assert(self.detector@ == d && found_view == evs);
                    assert(self@ =~= (LockstepModel {
                        detector: d,
                        desync_events: m.desync_events + evs,
                        ..m
                    }));
                    assert(g.deep_view().1 == g.checksums@) by {
                        assert(g.checksums.deep_view() =~= g.checksums@);
                    }
                }
            },
            _ => {},
        }
        proof {
            let expected = handle_model(m, src, msg.deep_view(), now);
            assert(expected is Ok);
            assert(expected->Ok_0.0 =~= self@);
            assert(expected->Ok_0.1 =~= sends.deep_view());
        }
        Ok(sends)
    }

    /// Handles every received packet in order.  A packet that is not a valid
    /// message, or a message the session refuses, is counted and skipped;
    /// it does not keep the others from being handled.
    pub fn process_packets(&mut self, packets: &Vec<(PeerAddr, Vec<u8>)>, now: u64) -> (r: PacketReport)
        requires
            old(self).wf(),
        ensures
            final(self).wf(),
            ({
                let p = process_model(old(self)@, packets.deep_view(), now);
                &&& final(self)@ == p.session
                &&& r.sends.deep_view() == p.sends
                &&& r.delivered.deep_view() == p.delivered
                &&& r.decode_errors == p.decode_errors
                &&& r.protocol_errors == p.protocol_errors
            }),
    {
        let ghost m = self@;
        let ghost ps = packets.deep_view();
        let mut report = PacketReport {
            sends: Vec::new(),
            delivered: Vec::new(),
            decode_errors: 0,
            protocol_errors: 0,
        };
        let mut i: usize = 0;
        proof {
            assert(ps.take(0) =~= Seq::<(PeerAddr, Seq<u8>)>::empty());
            assert(report.sends.deep_view() =~= Seq::<(PeerAddr, MessageModel)>::empty());
            assert(report.delivered.deep_view() =~= Seq::<MessageModel>::empty());
        }
        while i < packets.len()
            invariant
                self.wf(),
                ps == packets.deep_view(),
                i <= ps.len(),
                report.decode_errors + report.protocol_errors <= i,
                ({
                    let p = process_model(m, ps.take(i as int), now);
                    &&& self@ == p.session
                    &&& report.sends.deep_view() == p.sends
                    &&& report.delivered.deep_view() == p.delivered
                    &&& report.decode_errors == p.decode_errors
                    &&& report.protocol_errors == p.protocol_errors
                }),
            decreases ps.len() - i,
        {
            proof {
                assert(ps.take(i + 1).drop_last() =~= ps.take(i as int));
                assert(ps.take(i + 1).last() == ps[i as int]);
            }
            let src = packets[i].0;
            proof {
                assert(packets@[i as int].1.deep_view() =~= packets@[i as int].1@);
                assert(ps[i as int] == (src, packets@[i as int].1@));
            }
            let ghost before = process_model(m, ps.take(i as int), now);
            assert(process_model(m, ps.take(i + 1), now) == match message_of(packets@[i as int].1@) {
                None => ProcessModel { decode_errors: before.decode_errors + 1, ..before },
                Some(v) => match handle_model(before.session, src, v, now) {
                    Ok((next, out)) => ProcessModel {
                        session: next,
                        sends: before.sends + out,
                        delivered: before.delivered.push(v),
                        ..before
                    },
                    Err(_) => ProcessModel { protocol_errors: before.protocol_errors + 1, ..before },
                },
            });
            match NetworkMessage::decode(packets[i].1.as_slice()) {
                Err(_) => {
                    report.decode_errors = report.decode_errors + 1;
                },
                Ok(msg) => {
                    let kept = copy_message(&msg);
                    match self.handle_message(src, msg, now) {
                        Ok(mut out) => {
                            let ghost prev_sends = report.sends.deep_view();
                            let ghost prev_delivered = report.delivered.deep_view();
                            let ghost out_view = out.deep_view();
                            report.sends.append(&mut out);
                            report.delivered.push(kept);
                            proof {
                                assert(report.sends.deep_view() =~= prev_sends + out_view);
                                assert(report.delivered.deep_view() =~= prev_delivered.push(
                                    kept.deep_view(),
                                ));
                            }
                        },
                        Err(_) => {
                            report.protocol_errors = report.protocol_errors + 1;
                        },
                    }
                },
            }
            i = i + 1;
        }
        proof {
            assert(ps.take(i as int) =~= ps);
        }
        report
    }

    /// Starts hosting: the local player becomes player 0, at address `addr`
    /// under `name`.  Only an idle session can start hosting.
    pub fn host_game(&mut self, addr: PeerAddr, name: String) -> (r: Result<(), ProtocolError>)
        requires
            old(self).wf(),
        ensures
            final(self).wf(),
            old(self)@.state == SessionState::Idle ==> r is Ok && final(self)@ == host_model(
                old(self)@,
                addr,
                name@,
            ),
            old(self)@.state != SessionState::Idle ==> r == Err::<(), ProtocolError>(
                ProtocolError::Unexpected,
            ) && final(self)@ == old(self)@,
    {
        if self.state != SessionState::Idle {
            return Err(ProtocolError::Unexpected);
        }
        let ghost m = self@;
        let me = PlayerInfo {
            address: addr,
            name: name.clone(),
            last_tick_received: self.current_tick,
            ping_ms: 0,
        };
        self.put_peer(0, me);
        self.local_name = name;
        self.local_player_id = 0;
        self.is_host = true;
        self.state = SessionState::Hosting;
        proof {
            assert forall|k: (u64, u8)| !#[trigger] self@.pending.contains_key(k) by {
                if m.pending.contains_key(k) {
                    assert(m.peers.contains_key(k.1));
                }
            }
            assert(self@ =~= host_model(m, addr, name@));
        }
        Ok(())
    }

    /// Starts joining the host at `host` as `name`: returns the `Hello` to
    /// send it.  Only an idle session can join.
    pub fn join_game(&mut self, host: PeerAddr, name: String) -> (r: Result<
        (PeerAddr, NetworkMessage),
        ProtocolError,
    >)
        requires
            old(self).wf(),
        ensures
            final(self).wf(),
            old(self)@.state == SessionState::Idle ==> (r matches Ok(hello) && hello.deep_view() == (
                host,
                MessageModel::Hello((255u8, name@, false)),
            ) && final(self)@ == (LockstepModel {
                state: SessionState::Joining,
                local_name: name@,
                host_addr: Some(host),
                ..old(self)@
            })),
            old(self)@.state != SessionState::Idle ==> (r matches Err(e) && e
                == ProtocolError::Unexpected && final(self)@ == old(self)@),
    {
        if self.state != SessionState::Idle {
            return Err(ProtocolError::Unexpected);
        }
        let ghost m = self@;
        let hello = NetworkMessage::Hello(
            PlayerJoinMessage { player_id: 255, player_name: name.clone(), is_observer: false },
        );
        self.local_name = name;
        self.host_addr = Some(host);
        self.state = SessionState::Joining;
        proof {
            assert(self@ =~= (LockstepModel {
                state: SessionState::Joining,
                local_name: name@,
                host_addr: Some(host),
                ..m
            }));
        }
        Ok((host, hello))
    }

    /// The host starts the game: every other player is told the seed and the
    /// tick to start at (the host's current one).
    pub fn start_game(&mut self, seed: u64) -> (r: Result<Vec<(PeerAddr, NetworkMessage)>, ProtocolError>)
        requires
            old(self).wf(),
        ensures
            final(self).wf(),
            ({
                let m = old(self)@;
                if m.is_host && m.state == SessionState::Hosting {
                    (r matches Ok(sends) && sends.deep_view() == to_all(
                        relay_targets(m, m.local_player_id),
                        MessageModel::Start((seed, m.current_tick)),
                    ) && final(self)@ == (LockstepModel { state: SessionState::Connected, ..m }))
                } else {
                    (r matches Err(e) && e == ProtocolError::Unexpected && final(self)@ == m)
                }
            }),
    {
        if !self.is_host || self.state != SessionState::Hosting {
            return Err(ProtocolError::Unexpected);
        }
        let ghost m = self@;
        let targets = self.relay_list(self.local_player_id);
        let start = NetworkMessage::Start { seed, start_tick: self.current_tick };
        let sends = address_all(&targets, &start);
        self.state = SessionState::Connected;
        proof {
            assert(self@ =~= (LockstepModel { state: SessionState::Connected, ..m }));
        }
        Ok(sends)
    }

    /// Where the local player's own messages go: a host sends `msg` to every
    /// other known player, a client to the host.  A client that knows no host
    /// (it never joined, or it closed) has nowhere to send: `NoHost`.
    pub fn outbound(&self, msg: &NetworkMessage) -> (r: Result<Vec<(PeerAddr, NetworkMessage)>, ProtocolError>)
        requires
            self.wf(),
        ensures
            match outbound_model(self@, msg.deep_view()) {
                Ok(sends) => r matches Ok(out) && out.deep_view() == sends,
                Err(e) => r == Err::<Vec<(PeerAddr, NetworkMessage)>, ProtocolError>(e),
            },
    {
        if self.is_host {
            let targets = self.relay_list(self.local_player_id);
            Ok(address_all(&targets, msg))
        } else {
            match self.host_addr {
                Some(host) => {
                    let mut sends: Vec<(PeerAddr, NetworkMessage)> = Vec::new();
                    sends.push((host, copy_message(msg)));
                    proof {
                        assert(sends.deep_view() =~= seq![(host, msg.deep_view())]);
                    }
                    Ok(sends)
                },
                None => Err(ProtocolError::NoHost),
            }
        }
    }

    /// Ends the session for good.  An active session tells every other known
    /// player once that the local player quits; the notices are returned.
    /// The directory, the buffered batches, the host address and the host
    /// role are dropped.
    pub fn close(&mut self) -> (r: Vec<(PeerAddr, NetworkMessage)>)
        requires
            old(self).wf(),
        ensures
            final(self).wf(),
            final(self)@ == closed_model(old(self)@),
            r.deep_view() == if is_active_state(old(self)@.state) {
                to_all(
                    relay_targets(old(self)@, old(self)@.local_player_id),
                    MessageModel::Leave((old(self)@.local_player_id, DisconnectReason::Quit)),
                )
            } else {
                Seq::empty()
            },
    {
        let ghost m = self@;
        let mut sends: Vec<(PeerAddr, NetworkMessage)> = Vec::new();
        if self.state == SessionState::Hosting || self.state == SessionState::Joining || self.state
            == SessionState::Connected {
            let targets = self.relay_list(self.local_player_id);
            let leave = NetworkMessage::Leave(
                PlayerLeaveMessage { player_id: self.local_player_id, reason: DisconnectReason::Quit },
            );
            sends = address_all(&targets, &leave);
        }
        self.state = SessionState::Closed;
        self.is_host = false;
        self.host_addr = None;
        self.players = empty_directory();
        self.command_queue = Vec::new();
        proof {
            assert(self@.peers =~= Map::<u8, PeerModel>::empty());
            assert(self.command_queue.deep_view() =~= Seq::<BatchModel>::empty());
            assert(self@.pending =~= Map::<(u64, u8), Seq<Seq<u8>>>::empty());
            assert(self@ =~= closed_model(m));
            assert(!is_active_state(m.state) ==> sends.deep_view() =~= Seq::<(PeerAddr, MessageModel)>::empty());
        }
        sends
    }

    /// Whether the session is hosting, joining or connected.
    pub fn is_active(&self) -> (r: bool)
        ensures
            r == is_active_state(self@.state),
    {
        self.state == SessionState::Hosting || self.state == SessionState::Joining || self.state
            == SessionState::Connected
    }

    pub fn state(&self) -> (r: SessionState)
        ensures
            r == self@.state,
    {
        self.state
    }

    pub fn is_host(&self) -> (r: bool)
        ensures
            r == self@.is_host,
    {
        self.is_host
    }

    pub fn current_tick(&self) -> (r: u64)
        ensures
            r == self@.current_tick,
    {
        self.current_tick
    }

    /// Records the local player's own checksum for `tick` and compares it
    /// with those received; a divergence it reveals joins the pending events.
    pub fn record_local_checksum(&mut self, tick: u64, checksum: u32)
        requires
            old(self).wf(),
        ensures
            final(self).wf(),
            ({
                let m = old(self)@;
                let (d, e) = record_model(m.detector, tick, m.local_player_id, checksum);
                final(self)@ == (LockstepModel {
                    detector: d,
                    desync_events: match e {
                        Some(ev) => m.desync_events.push(ev),
                        None => m.desync_events,
                    },
                    ..m
                })
            }),
    {
        let ghost m = self@;
        match self.detector.record_checksum(tick, self.local_player_id, checksum) {
            Some(ev) => self.desync_events.push(ev),
            None => {},
        }
        proof {
            let (d, e) = record_model(m.detector, tick, m.local_player_id, checksum);
            assert(self@ =~= (LockstepModel {
                detector: d,
                desync_events: match e {
                    Some(ev) => m.desync_events.push(ev),
                    None => m.desync_events,
                },
                ..m
            }));
        }
    }

    /// Hands out the divergences found so far, oldest first, and forgets them.
    pub fn take_desync_events(&mut self) -> (r: Vec<DesyncEvent>)
        requires
            old(self).wf(),
        ensures
            final(self).wf(),
            r@ == old(self)@.desync_events,
            final(self)@ == (LockstepModel { desync_events: Seq::empty(), ..old(self)@ }),
    {
        let ghost m = self@;
        let mut events: Vec<DesyncEvent> = Vec::new();
        std::mem::swap(&mut events, &mut self.desync_events);
        proof {
            assert(self@ =~= (LockstepModel { desync_events: Seq::empty(), ..m }));
        }
        events
    }

    /// Forgets the checksums of every tick before `tick`.
    pub fn forget_checksums_before(&mut self, tick: u64)
        requires
            old(self).wf(),
        ensures
            final(self).wf(),
            final(self)@ == (LockstepModel {
                detector: DetectorModel {
                    reports: reports_from(old(self)@.detector.reports, tick),
                    flagged: ticks_from(old(self)@.detector.flagged, tick),
                },
                ..old(self)@
            }),
    {
        let ghost m = self@;
        self.detector.forget_before(tick);
        proof {
            assert(self@ =~= (LockstepModel {
                detector: DetectorModel {
                    reports: reports_from(m.detector.reports, tick),
                    flagged: ticks_from(m.detector.flagged, tick),
                },
                ..m
            }));
        }
    }

    /// The players of the directory as a replay roster, by ascending id.
    pub fn roster(&self) -> (r: Vec<PlayerReplayInfo>)
        requires
            self.wf(),
        ensures
            r.deep_view() == roster_upto(self@, MAX_PLAYERS as int),
    {
        broadcast use vstd::string::to_string_from_display_ensures_for_str;

        let mut out: Vec<PlayerReplayInfo> = Vec::new();
        let mut p: usize = 0;
        while p < MAX_PLAYERS
            invariant
                self.wf(),
                p <= MAX_PLAYERS,
                out.deep_view() == roster_upto(self@, p as int),
            decreases MAX_PLAYERS - p,
        {
            let id = p as u8;
            let ghost prev = out.deep_view();
            proof {
                assert(id as int == p as int);
                assert(self@.peers.contains_key(id) == self.players@[p as int] is Some);
            }
            match &self.players[p] {
                Some(info) => {
                    let entry = PlayerReplayInfo {
                        id,
                        name: info.name.clone(),
                        color: player_color(id),
                        race: "Default".to_string(),
                        is_human: true,
                    };
                    out.push(entry);
                    proof {
                        assert(entry.deep_view() == (id, self@.peers[id].name, color_of(id).deep_view(), "Default"@, true));
                        assert(out.deep_view() =~= prev + seq![entry.deep_view()]);
                    }
                },
                None => {
                    proof {
                        assert(out.deep_view() =~= prev + Seq::<(u8, Seq<char>, (u8, u8, u8, u8), Seq<char>, bool)>::empty());
                    }
                },
            }
            p = p + 1;
        }
        out
    }

    /// How many players the directory holds, the local one included.
    pub fn get_player_count(&self) -> (r: usize)
        requires
            self.wf(),
        ensures
            r == known_upto(self@, MAX_PLAYERS as int),
    {
        let mut count: usize = 0;
        let mut p: usize = 0;
        while p < MAX_PLAYERS
            invariant
                self.wf(),
                p <= MAX_PLAYERS,
                count == known_upto(self@, p as int),
                count <= p,
            decreases MAX_PLAYERS - p,
        {
            proof {
                assert((p as u8) as int == p as int);
                assert(self@.peers.contains_key(p as u8) == self.players@[p as int] is Some);
            }
            if self.players[p].is_some() {
                count = count + 1;
            }
            p = p + 1;
        }
        count
    }

    /// The local player's id, once it has one.
    pub fn get_local_player_id(&self) -> (r: Option<u8>)
        requires
            self.wf(),
        ensures
            r == if self@.peers.contains_key(self@.local_player_id) {
                Some(self@.local_player_id)
            } else {
                None::<u8>
            },
    {
        if self.players[self.local_player_id as usize].is_some() {
            Some(self.local_player_id)
        } else {
            None
        }
    }
}

} // verus!
