//! The session's role state machine: how a host or a client reacts to each
//! message, over the model of [`LockstepNetwork`](crate::lockstep::LockstepNetwork).
//!
//! A host gives every `Hello` the lowest unused id from 1 (it is 0) and
//! relays every accepted batch and chat line to the other players; a client
//! talks to the host alone.  `Closed` is final.
use vstd::prelude::*;
use crate::desync::{
    first_conflict, has_report, lemma_conflict_at, lemma_no_conflict_from, record_all_model,
    record_model, DesyncEvent,
};
use crate::commands::{copy_message, message_of, MessageModel, NetworkMessage};
use crate::lockstep::{
    ingest_model, ingest_outcome, IngestOutcome, LockstepModel, PeerAddr, PeerModel, SessionState,
    MAX_PLAYERS,
};

verus! {

/// Why the session refused a message.
#[derive(Clone, Copy, Debug, PartialEq, Eq, Structural)]
pub enum ProtocolError {
    /// Valid, but not expected in the session's role or state.
    Unexpected,
    /// A batch names a player the session does not know.
    UnknownPeer,
    /// Every player id is taken.
    SessionFull,
    /// A client that knows no host has nowhere to send.
    NoHost,
}

/// Where the local player's own message `msg` goes: from a host to every
/// other known player, from a client to the host it joined.
pub open spec fn outbound_model(m: LockstepModel, msg: MessageModel) -> Result<Sends, ProtocolError> {
    if m.is_host {
        Ok(to_all(relay_targets(m, m.local_player_id), msg))
    } else {
        match m.host_addr {
            Some(h) => Ok(seq![(h, msg)]),
            None => Err(ProtocolError::NoHost),
        }
    }
}

/// Messages to send, each with its destination.
pub type Sends = Seq<(PeerAddr, MessageModel)>;

/// The address a client records for itself: it never sends to it.
pub open spec fn unspecified_addr() -> PeerAddr {
    PeerAddr { ip: 0, port: 0 }
}

/// Addresses of the known players below `n` other than `exclude` and the
/// local player, in ascending player order.
pub open spec fn relay_upto(m: LockstepModel, exclude: u8, n: int) -> Seq<PeerAddr>
    decreases n,
{
    if n <= 0 {
        Seq::empty()
    } else {
        let p = (n - 1) as u8;
        relay_upto(m, exclude, n - 1) + if m.peers.contains_key(p) && p != exclude && p
            != m.local_player_id {
            seq![m.peers[p].address]
        } else {
            Seq::empty()
        }
    }
}

/// Where a message from player `exclude` is relayed (or where the local
/// player's own messages go, with `exclude` the local player): every other
/// known player.  A client knows only the host, so it sends to the host alone.
pub open spec fn relay_targets(m: LockstepModel, exclude: u8) -> Seq<PeerAddr> {
    relay_upto(m, exclude, MAX_PLAYERS as int)
}

/// `msg` addressed to each of `targets`, in order.
pub open spec fn to_all(targets: Seq<PeerAddr>, msg: MessageModel) -> Sends {
    Seq::new(targets.len(), |i: int| (targets[i], msg))
}

/// The lowest player id below `n` recorded at address `a`.
pub open spec fn addr_owner_upto(m: LockstepModel, a: PeerAddr, n: int) -> Option<u8>
    decreases n,
{
    if n <= 0 {
        None
    } else {
        let p = (n - 1) as u8;
        let below = addr_owner_upto(m, a, n - 1);
        if below is Some {
            below
        } else if m.peers.contains_key(p) && m.peers[p].address == a {
            Some(p)
        } else {
            None
        }
    }
}

/// The lowest player id recorded at address `a`.
pub open spec fn addr_owner(m: LockstepModel, a: PeerAddr) -> Option<u8> {
    addr_owner_upto(m, a, MAX_PLAYERS as int)
}

/// The lowest unused player id in `1..n`.
pub open spec fn free_id_upto(m: LockstepModel, n: int) -> Option<u8>
    decreases n,
{
    if n <= 1 {
        None
    } else {
        let p = (n - 1) as u8;
        let below = free_id_upto(m, n - 1);
        if below is Some {
            below
        } else if !m.peers.contains_key(p) {
            Some(p)
        } else {
            None
        }
    }
}

/// The id the host gives the next player: the lowest unused one, from 1 (the
/// host is 0).
pub open spec fn free_id(m: LockstepModel) -> Option<u8> {
    free_id_upto(m, MAX_PLAYERS as int)
}

/// How many of the player ids below `n` are known.
pub open spec fn known_upto(m: LockstepModel, n: int) -> nat
    decreases n,
{
    if n <= 0 {
        0
    } else {
        known_upto(m, n - 1) + if m.peers.contains_key((n - 1) as u8) {
            1nat
        } else {
            0nat
        }
    }
}

pub open spec fn is_active_state(s: SessionState) -> bool {
    s == SessionState::Hosting || s == SessionState::Joining || s == SessionState::Connected
}

/// Round trip of a probe sent at `sent` and answered at `now`, in
/// milliseconds, saturated to the range of `u32`.
pub open spec fn latency(now: u64, sent: u64) -> u32 {
    if now <= sent {
        0
    } else if now - sent > u32::MAX {
        u32::MAX
    } else {
        (now - sent) as u32
    }
}

pub open spec fn fresh_peer(address: PeerAddr, name: Seq<char>, tick: u64) -> PeerModel {
    PeerModel { address, name, last_tick_received: tick, ping_ms: 0 }
}

/// How the session reacts to message `msg` from address `src` at clock `now`
/// (milliseconds): its next state and the messages to send, or why it
/// refuses the message (and then it does not change).
pub open spec fn handle_model(m: LockstepModel, src: PeerAddr, msg: MessageModel, now: u64) -> Result<
    (LockstepModel, Sends),
    ProtocolError,
> {
    if !is_active_state(m.state) {
        Err(ProtocolError::Unexpected)
    } else {
        match msg {
            MessageModel::Commands(b) => {
                if !m.is_host && m.state != SessionState::Connected {
                    Err(ProtocolError::Unexpected)
                } else if ingest_outcome(m, b) == IngestOutcome::UnknownPeer {
                    Err(ProtocolError::UnknownPeer)
                } else if m.is_host && ingest_outcome(m, b) == IngestOutcome::Accepted {
                    Ok((ingest_model(m, b), to_all(relay_targets(m, b.1), msg)))
                } else {
                    Ok((ingest_model(m, b), Seq::empty()))
                }
            },
            MessageModel::Hello(h) => {
                if !m.is_host {
                    Err(ProtocolError::Unexpected)
                } else {
                    match free_id(m) {
                        None => Err(ProtocolError::SessionFull),
                        Some(id) => Ok(
                            (
                                LockstepModel {
                                    peers: m.peers.insert(id, fresh_peer(src, h.1, m.current_tick)),
                                    ..m
                                },
                                seq![(src, MessageModel::Welcome(id))],
                            ),
                        ),
                    }
                }
            },
            MessageModel::Welcome(id) => {
                if m.is_host || m.state != SessionState::Joining || id == 0 {
                    Err(ProtocolError::Unexpected)
                } else {
                    Ok(
                        (
                            LockstepModel {
                                state: SessionState::Connected,
                                local_player_id: id,
                                host_addr: Some(src),
                                peers: m.peers.insert(
                                    0,
                                    fresh_peer(src, Seq::empty(), m.current_tick),
                                ).insert(id, fresh_peer(unspecified_addr(), m.local_name, m.current_tick)),
                                ..m
                            },
                            Seq::empty(),
                        ),
                    )
                }
            },
            MessageModel::Start(st) => {
                if m.is_host || m.state != SessionState::Connected {
                    Err(ProtocolError::Unexpected)
                } else {
                    Ok(
                        (
                            LockstepModel {
                                current_tick: if st.1 > m.current_tick {
                                    st.1
                                } else {
                                    m.current_tick
                                },
                                ..m
                            },
                            Seq::empty(),
                        ),
                    )
                }
            },
            MessageModel::Sync(t) => {
                if m.is_host || m.state != SessionState::Connected {
                    Err(ProtocolError::Unexpected)
                } else {
                    Ok(
                        (
                            LockstepModel {
                                current_tick: if t > m.current_tick {
                                    t
                                } else {
                                    m.current_tick
                                },
                                ..m
                            },
                            Seq::empty(),
                        ),
                    )
                }
            },
            MessageModel::Ping(t) => Ok((m, seq![(src, MessageModel::Pong(t))])),
            MessageModel::Pong(t) => match addr_owner(m, src) {
                Some(id) => Ok(
                    (
                        LockstepModel {
                            peers: m.peers.insert(
                                id,
                                PeerModel { ping_ms: latency(now, t), ..m.peers[id] },
                            ),
                            ..m
                        },
                        Seq::empty(),
                    ),
                ),
                None => Ok((m, Seq::empty())),
            },
            MessageModel::Chat(c) => {
                if m.is_host {
                    Ok((m, to_all(relay_targets(m, c.0), msg)))
                } else {
                    Ok((m, Seq::empty()))
                }
            },
            MessageModel::GameSync(g) => {
                let (d, found) = record_all_model(m.detector, g.0, g.1);
                Ok((LockstepModel { detector: d, desync_events: m.desync_events + found, ..m }, Seq::empty()))
            },
            _ => Ok((m, Seq::empty())),
        }
    }
}

/// What one call of `process_packets` did, over its model.
pub ghost struct ProcessModel {
    pub session: LockstepModel,
    pub sends: Sends,
    /// The messages the session accepted, in arrival order.
    pub delivered: Seq<MessageModel>,
    pub decode_errors: nat,
    pub protocol_errors: nat,
}

/// Handling the packets `(source, bytes)` in order: one that encodes no
/// message only counts as a decode error, one the session refuses only as a
/// protocol error; every other one is handled as `handle_model` says.
pub open spec fn process_model(m: LockstepModel, packets: Seq<(PeerAddr, Seq<u8>)>, now: u64) -> ProcessModel
    decreases packets.len(),
{
    if packets.len() == 0 {
        ProcessModel {
            session: m,
            sends: Seq::empty(),
            delivered: Seq::empty(),
            decode_errors: 0,
            protocol_errors: 0,
        }
    } else {
        let r = process_model(m, packets.drop_last(), now);
        let (src, bytes) = packets.last();
        match message_of(bytes) {
            None => ProcessModel { decode_errors: r.decode_errors + 1, ..r },
            Some(v) => match handle_model(r.session, src, v, now) {
                Ok((next, out)) => ProcessModel {
                    session: next,
                    sends: r.sends + out,
                    delivered: r.delivered.push(v),
                    ..r
                },
                Err(_) => ProcessModel { protocol_errors: r.protocol_errors + 1, ..r },
            },
        }
    }
}

/// A packet that encodes no message, wherever it stands among the others,
/// only adds one to the decode errors: every other packet is handled exactly
/// as if it had not been there.
pub proof fn lemma_corrupt_packet_ignored(
    m: LockstepModel,
    before: Seq<(PeerAddr, Seq<u8>)>,
    bad: (PeerAddr, Seq<u8>),
    after: Seq<(PeerAddr, Seq<u8>)>,
    now: u64,
)
    requires
        message_of(bad.1) is None,
    ensures
        ({
            let with = process_model(m, before + seq![bad] + after, now);
            let without = process_model(m, before + after, now);
            with == ProcessModel { decode_errors: without.decode_errors + 1, ..without }
        }),
    decreases after.len(),
{
    if after.len() == 0 {
        assert((before + seq![bad] + after).drop_last() =~= before);
        assert(before + after =~= before);
    } else {
        lemma_corrupt_packet_ignored(m, before, bad, after.drop_last(), now);
        assert((before + seq![bad] + after).drop_last() =~= before + seq![bad] + after.drop_last());
        assert((before + after).drop_last() =~= before + after.drop_last());
        assert((before + seq![bad] + after).last() == after.last());
        assert((before + after).last() == after.last());
    }
}

/// The session after it started hosting at address `addr` as `name`.
pub open spec fn host_model(m: LockstepModel, addr: PeerAddr, name: Seq<char>) -> LockstepModel {
    LockstepModel {
        state: SessionState::Hosting,
        is_host: true,
        local_player_id: 0,
        local_name: name,
        peers: m.peers.insert(0, fresh_peer(addr, name, m.current_tick)),
        ..m
    }
}

/// `msg` addressed to each of `targets`, in order.
pub(crate) fn address_all(targets: &Vec<PeerAddr>, msg: &NetworkMessage) -> (r: Vec<(PeerAddr, NetworkMessage)>)
    ensures
        r.deep_view() == to_all(targets@, msg.deep_view()),
{
    let mut out: Vec<(PeerAddr, NetworkMessage)> = Vec::new();
    let mut i: usize = 0;
    while i < targets.len()
        invariant
            i <= targets@.len(),
            out.deep_view() == to_all(targets@, msg.deep_view()).take(i as int),
        decreases targets@.len() - i,
    {
        let ghost prev = out.deep_view();
        let item = (targets[i], copy_message(msg));
        out.push(item);
        proof {
            assert(item.deep_view() == (targets@[i as int], msg.deep_view()));
            assert(out.deep_view() =~= prev.push(item.deep_view()));
            assert(out.deep_view() =~= to_all(targets@, msg.deep_view()).take(i + 1));
        }
        i = i + 1;
    }
    proof {
        assert(to_all(targets@, msg.deep_view()).take(i as int) =~= to_all(targets@, msg.deep_view()));
    }
    out
}

pub(crate) proof fn lemma_owner_found(m: LockstepModel, a: PeerAddr, n: int)
    requires
        n >= 1,
        addr_owner_upto(m, a, n - 1) is None,
        m.peers.contains_key((n - 1) as u8),
        m.peers[(n - 1) as u8].address == a,
        n <= MAX_PLAYERS,
    ensures
        addr_owner(m, a) == Some((n - 1) as u8),
{
    lemma_owner_stable(m, a, n, MAX_PLAYERS as int);
}

pub(crate) proof fn lemma_owner_known(m: LockstepModel, a: PeerAddr, n: int)
    requires
        addr_owner_upto(m, a, n) is Some,
    ensures
        m.peers.contains_key(addr_owner_upto(m, a, n)->Some_0),
        m.peers[addr_owner_upto(m, a, n)->Some_0].address == a,
    decreases n,
{
    if n > 0 && addr_owner_upto(m, a, n - 1) is Some {
        lemma_owner_known(m, a, n - 1);
    }
}

pub(crate) proof fn lemma_free_unknown(m: LockstepModel, n: int)
    requires
        free_id_upto(m, n) is Some,
    ensures
        !m.peers.contains_key(free_id_upto(m, n)->Some_0),
    decreases n,
{
    if n > 1 && free_id_upto(m, n - 1) is Some {
        lemma_free_unknown(m, n - 1);
    }
}

pub(crate) proof fn lemma_owner_stable(m: LockstepModel, a: PeerAddr, n: int, k: int)
    requires
        1 <= n <= k,
        addr_owner_upto(m, a, n) is Some,
    ensures
        addr_owner_upto(m, a, k) == addr_owner_upto(m, a, n),
    decreases k - n,
{
    if k > n {
        lemma_owner_stable(m, a, n, k - 1);
    }
}

pub(crate) proof fn lemma_free_found(m: LockstepModel, n: int)
    requires
        2 <= n <= MAX_PLAYERS,
        free_id_upto(m, n - 1) is None,
        !m.peers.contains_key((n - 1) as u8),
    ensures
        free_id(m) == Some((n - 1) as u8),
{
    lemma_free_stable(m, n, MAX_PLAYERS as int);
}

pub(crate) proof fn lemma_free_stable(m: LockstepModel, n: int, k: int)
    requires
        2 <= n <= k,
        free_id_upto(m, n) is Some,
    ensures
        free_id_upto(m, k) == free_id_upto(m, n),
    decreases k - n,
{
    if k > n {
        lemma_free_stable(m, n, k - 1);
    }
}

/// Divergence detection inside the session: when the session holds, for tick
/// `t`, the single checksum `ca` of player `a` and has not reported `t` yet,
/// a sync message carrying player `b`'s checksum `cb` for `t` is accepted, and
/// records exactly one divergence naming `t`, `a` and `b` when the checksums
/// differ, none when they agree.  The session stays as it was otherwise.
pub proof fn lemma_sync_reveals_desync(
    m: LockstepModel,
    src: PeerAddr,
    now: u64,
    t: u64,
    k: int,
    a: u8,
    ca: u32,
    b: u8,
    cb: u32,
    unit_counts: Seq<(u8, u32)>,
)
    requires
        is_active_state(m.state),
        a != b,
        0 <= k < m.detector.reports.len(),
        m.detector.reports[k] == (t, a, ca),
        forall|j: int|
            0 <= j < m.detector.reports.len() && j != k ==> (#[trigger] m.detector.reports[j]).0 != t,
        !m.detector.flagged.contains(t),
    ensures
        handle_model(m, src, MessageModel::GameSync((t, seq![(b, cb)], unit_counts)), now) == Ok::<
            (LockstepModel, Sends),
            ProtocolError,
        >(
            (
                LockstepModel {
                    detector: record_model(m.detector, t, b, cb).0,
                    desync_events: m.desync_events + if ca != cb {
                        seq![DesyncEvent { tick: t, peer_a: a, peer_b: b }]
                    } else {
                        Seq::empty()
                    },
                    ..m
                },
                Seq::empty(),
            ),
        ),
{
    let rs = m.detector.reports;
    let pairs = seq![(b, cb)];
    assert(pairs.drop_last() =~= Seq::<(u8, u32)>::empty());
    assert(!has_report(rs, t, b)) by {
        if has_report(rs, t, b) {
            let i = choose|i: int| 0 <= i < rs.len() && (#[trigger] rs[i]).0 == t && rs[i].1 == b;
            assert(i == k);
        }
    }
    assert(record_all_model(m.detector, t, pairs.drop_last()) == (
        m.detector,
        Seq::<DesyncEvent>::empty(),
    ));
    assert(pairs.last() == (b, cb));
    let found: Seq<DesyncEvent> = if ca != cb {
        seq![DesyncEvent { tick: t, peer_a: a, peer_b: b }]
    } else {
        Seq::empty()
    };
    if ca != cb {
        lemma_conflict_at(rs, t, b, cb, 0, k);
        assert(first_conflict(rs, t, b, cb, 0) == Some(a));
        assert(Seq::<DesyncEvent>::empty().push(DesyncEvent { tick: t, peer_a: a, peer_b: b })
            =~= found);
    } else {
        lemma_no_conflict_from(rs, t, b, cb, 0);
    }
    assert(record_all_model(m.detector, t, pairs) == (record_model(m.detector, t, b, cb).0, found));
    let next = LockstepModel {
        detector: record_model(m.detector, t, b, cb).0,
        desync_events: m.desync_events + found,
        ..m
    };
    assert(handle_model(m, src, MessageModel::GameSync((t, pairs, unit_counts)), now) == Ok::<
        (LockstepModel, Sends),
        ProtocolError,
    >((next, Seq::empty())));
    if ca == cb {
        assert(m.desync_events + found =~= m.desync_events + Seq::<DesyncEvent>::empty());
    }
}

} // verus!
