//! Divergence detection.  Peers exchange a checksum of their simulation state
//! for a tick; two different checksums for the same tick mean the simulations
//! have diverged.  Each diverged tick is reported once.
use vstd::prelude::*;
use crate::commands::GameSyncMessage;

verus! {

/// Two players computed different checksums for the same tick.
#[derive(Clone, Copy, Debug, PartialEq, Eq, Structural)]
pub struct DesyncEvent {
    pub tick: u64,
    /// The player whose checksum arrived first.
    pub peer_a: u8,
    /// The player whose checksum disagreed with it.
    pub peer_b: u8,
}

/// A received checksum: `(tick, player, checksum)`.
pub type ReportModel = (u64, u8, u32);

/// Model of a [`DesyncDetector`]: the checksums kept, in arrival order, and
/// the ticks already reported as diverged.
pub ghost struct DetectorModel {
    pub reports: Seq<ReportModel>,
    pub flagged: Seq<u64>,
}

/// Player `p` already reported a checksum for tick `t`.
pub open spec fn has_report(rs: Seq<ReportModel>, t: u64, p: u8) -> bool {
    exists|i: int| 0 <= i < rs.len() && (#[trigger] rs[i]).0 == t && rs[i].1 == p
}

/// The first player, from index `i` on, whose checksum for tick `t` differs
/// from `c` (player `p` excluded).
pub open spec fn first_conflict(rs: Seq<ReportModel>, t: u64, p: u8, c: u32, i: int) -> Option<u8>
    decreases rs.len() - i,
{
    if i < 0 || i >= rs.len() {
        None
    } else if rs[i].0 == t && rs[i].1 != p && rs[i].2 != c {
        Some(rs[i].1)
    } else {
        first_conflict(rs, t, p, c, i + 1)
    }
}

/// The detector after player `p` reported checksum `c` for tick `t`, and the
/// event it raises.  A player's second report for a tick is ignored.  The
/// first report that disagrees with an earlier one for a tick not yet
/// reported raises an event naming the earliest disagreeing player and `p`.
pub open spec fn record_model(d: DetectorModel, t: u64, p: u8, c: u32) -> (DetectorModel, Option<
    DesyncEvent,
>) {
    if has_report(d.reports, t, p) {
        (d, None)
    } else {
        let reports = d.reports.push((t, p, c));
        if d.flagged.contains(t) {
            (DetectorModel { reports, ..d }, None)
        } else {
            match first_conflict(d.reports, t, p, c, 0) {
                Some(q) => (
                    DetectorModel { reports, flagged: d.flagged.push(t) },
                    Some(DesyncEvent { tick: t, peer_a: q, peer_b: p }),
                ),
                None => (DetectorModel { reports, ..d }, None),
            }
        }
    }
}

/// The detector after recording each `(player, checksum)` of `pairs` for
/// tick `t` in order, and the events raised.
pub open spec fn record_all_model(d: DetectorModel, t: u64, pairs: Seq<(u8, u32)>) -> (
    DetectorModel,
    Seq<DesyncEvent>,
)
    decreases pairs.len(),
{
    if pairs.len() == 0 {
        (d, Seq::empty())
    } else {
        let (d1, es) = record_all_model(d, t, pairs.drop_last());
        let (d2, e) = record_model(d1, t, pairs.last().0, pairs.last().1);
        (
            d2,
            match e {
                Some(ev) => es.push(ev),
                None => es,
            },
        )
    }
}

/// When two players report different checksums for a tick nobody reported
/// before, exactly one event is raised, naming the tick and both players;
/// later reports for that tick raise none.
pub proof fn lemma_single_desync_event(
    d: DetectorModel,
    t: u64,
    a: u8,
    ca: u32,
    b: u8,
    cb: u32,
    p: u8,
    c: u32,
)
    requires
        forall|i: int| 0 <= i < d.reports.len() ==> (#[trigger] d.reports[i]).0 != t,
        !d.flagged.contains(t),
        a != b,
        ca != cb,
    ensures
        ({
            let (d1, e1) = record_model(d, t, a, ca);
            let (d2, e2) = record_model(d1, t, b, cb);
            let (_, e3) = record_model(d2, t, p, c);
            &&& e1 is None
            &&& e2 == Some(DesyncEvent { tick: t, peer_a: a, peer_b: b })
            &&& e3 is None
        }),
{
    let (d1, e1) = record_model(d, t, a, ca);
    assert(!has_report(d.reports, t, a));
    lemma_no_conflict(d.reports, t, a, ca, 0);
    let n = d.reports.len() as int;
    assert(d1.reports[n] == (t, a, ca));
    lemma_conflict_at(d1.reports, t, b, cb, 0, n);
    let (d2, e2) = record_model(d1, t, b, cb);
    assert(d2.flagged.contains(t)) by {
        assert(d2.flagged.last() == t);
    }
}

proof fn lemma_no_conflict(rs: Seq<ReportModel>, t: u64, p: u8, c: u32, i: int)
    requires
        0 <= i,
        forall|j: int| 0 <= j < rs.len() ==> (#[trigger] rs[j]).0 != t,
    ensures
        first_conflict(rs, t, p, c, i) is None,
    decreases rs.len() - i,
{
    if i < rs.len() {
        lemma_no_conflict(rs, t, p, c, i + 1);
    }
}

pub(crate) proof fn lemma_no_conflict_from(rs: Seq<ReportModel>, t: u64, p: u8, c: u32, i: int)
    requires
        0 <= i,
        forall|j: int| i <= j < rs.len() ==> !((#[trigger] rs[j]).0 == t && rs[j].1 != p && rs[j].2 != c),
    ensures
        first_conflict(rs, t, p, c, i) is None,
    decreases rs.len() - i,
{
    if i < rs.len() {
        lemma_no_conflict_from(rs, t, p, c, i + 1);
    }
}

pub(crate) proof fn lemma_conflict_at(rs: Seq<ReportModel>, t: u64, p: u8, c: u32, i: int, k: int)
    requires
        0 <= i <= k < rs.len(),
        forall|j: int| 0 <= j < k ==> (#[trigger] rs[j]).0 != t,
        rs[k].0 == t && rs[k].1 != p && rs[k].2 != c,
    ensures
        first_conflict(rs, t, p, c, i) == Some(rs[k].1),
    decreases k - i,
{
    if i < k {
        lemma_conflict_at(rs, t, p, c, i + 1, k);
    }
}

/// The reports of `rs` for tick `t` or later, in order.
pub open spec fn reports_from(rs: Seq<ReportModel>, t: u64) -> Seq<ReportModel>
    decreases rs.len(),
{
    if rs.len() == 0 {
        rs
    } else if rs.last().0 < t {
        reports_from(rs.drop_last(), t)
    } else {
        reports_from(rs.drop_last(), t).push(rs.last())
    }
}

/// The ticks of `fs` from `t` on, in order.
pub open spec fn ticks_from(fs: Seq<u64>, t: u64) -> Seq<u64>
    decreases fs.len(),
{
    if fs.len() == 0 {
        fs
    } else if fs.last() < t {
        ticks_from(fs.drop_last(), t)
    } else {
        ticks_from(fs.drop_last(), t).push(fs.last())
    }
}

/// Compares the checksums that peers report for each tick.
pub struct DesyncDetector {
    reports: Vec<(u64, u8, u32)>,
    flagged: Vec<u64>,
}

impl View for DesyncDetector {
    type V = DetectorModel;

    closed spec fn view(&self) -> DetectorModel {
        DetectorModel { reports: self.reports@, flagged: self.flagged@ }
    }
}

impl DesyncDetector {
    /// A detector that has seen nothing.
    pub fn new() -> (r: Self)
        ensures
            r@.reports == Seq::<ReportModel>::empty(),
            r@.flagged == Seq::<u64>::empty(),
    {
        DesyncDetector { reports: Vec::new(), flagged: Vec::new() }
    }

    /// Records that player `peer` computed `checksum` after tick `tick`;
    /// returns the divergence it reveals, if any (see [`record_model`]).
    pub fn record_checksum(&mut self, tick: u64, peer: u8, checksum: u32) -> (r: Option<DesyncEvent>)
        ensures
            (final(self)@, r) == record_model(old(self)@, tick, peer, checksum),
    {
        let ghost d = self@;
        let n = self.reports.len();
        let mut i: usize = 0;
        let mut conflict: Option<u8> = None;
        while i < n
            invariant
                n == self.reports@.len(),
                self@ == d,
                i <= n,
                forall|j: int| 0 <= j < i ==> !((#[trigger] self.reports@[j]).0 == tick
                    && self.reports@[j].1 == peer),
                conflict is None ==> first_conflict(d.reports, tick, peer, checksum, 0)
                    == first_conflict(d.reports, tick, peer, checksum, i as int),
                conflict is Some ==> first_conflict(d.reports, tick, peer, checksum, 0)
                    == conflict,
            decreases n - i,
        {
            let (t, p, c) = self.reports[i];
            if t == tick && p == peer {
                proof {
                    assert(has_report(d.reports, tick, peer)) by {
                        assert(d.reports[i as int].0 == tick);
                    }
                }
                return None;
            }
            if conflict.is_none() && t == tick && c != checksum {
                conflict = Some(p);
            }
            i = i + 1;
        }
        proof {
            assert(!has_report(d.reports, tick, peer));
        }
        let mut flagged = false;
        let mut k: usize = 0;
        while k < self.flagged.len()
            invariant
                self@ == d,
                k <= self.flagged@.len(),
                flagged == exists|j: int| 0 <= j < k && self.flagged@[j] == tick,
            decreases self.flagged@.len() - k,
        {
            if self.flagged[k] == tick {
                flagged = true;
            }
            k = k + 1;
        }
        proof {
            assert(flagged == d.flagged.contains(tick));
        }
        self.reports.push((tick, peer, checksum));
        if flagged {
            return None;
        }
        match conflict {
            Some(q) => {
                self.flagged.push(tick);
                Some(DesyncEvent { tick, peer_a: q, peer_b: peer })
            },
            None => None,
        }
    }

    /// Forgets the checksums of every tick before `tick`: once compared, they
    /// are of no further use.
    pub fn forget_before(&mut self, tick: u64)
        ensures
            final(self)@.reports == reports_from(old(self)@.reports, tick),
            final(self)@.flagged == ticks_from(old(self)@.flagged, tick),
    {
        let ghost rs = self.reports@;
        let ghost fs = self.flagged@;
        let mut kept: Vec<(u64, u8, u32)> = Vec::new();
        let mut i: usize = 0;
        while i < self.reports.len()
            invariant
                rs == self.reports@,
                i <= rs.len(),
                kept@ == reports_from(rs.take(i as int), tick),
            decreases rs.len() - i,
        {
            proof {
                assert(rs.take(i + 1).drop_last() =~= rs.take(i as int));
            }
            let r = self.reports[i];
            if r.0 >= tick {
                kept.push(r);
            }
            i = i + 1;
        }
        let mut kept_flags: Vec<u64> = Vec::new();
        let mut k: usize = 0;
        while k < self.flagged.len()
            invariant
                fs == self.flagged@,
                k <= fs.len(),
                kept_flags@ == ticks_from(fs.take(k as int), tick),
            decreases fs.len() - k,
        {
            proof {
                assert(fs.take(k + 1).drop_last() =~= fs.take(k as int));
            }
            let f = self.flagged[k];
            if f >= tick {
                kept_flags.push(f);
            }
            k = k + 1;
        }
        proof {
            assert(rs.take(i as int) =~= rs);
            assert(fs.take(k as int) =~= fs);
        }
        self.reports = kept;
        self.flagged = kept_flags;
    }

    /// Records every checksum of a sync message; returns the divergences found.
    pub fn record_sync(&mut self, msg: &GameSyncMessage) -> (r: Vec<DesyncEvent>)
        ensures
            (final(self)@, r@) == record_all_model(old(self)@, msg.tick, msg.checksums@),
    {
        let ghost d = self@;
        let mut events: Vec<DesyncEvent> = Vec::new();
        let mut i: usize = 0;
        while i < msg.checksums.len()
            invariant
                i <= msg.checksums@.len(),
                (self@, events@) == record_all_model(d, msg.tick, msg.checksums@.take(i as int)),
            decreases msg.checksums@.len() - i,
        {
            let (p, c) = msg.checksums[i];
            proof {
                assert(msg.checksums@.take(i + 1).drop_last() =~= msg.checksums@.take(i as int));
                assert(msg.checksums@.take(i + 1).last() == (p, c));
            }
            match self.record_checksum(msg.tick, p, c) {
                Some(e) => events.push(e),
                None => {},
            }
            i = i + 1;
        }
        proof {
            assert(msg.checksums@.take(i as int) =~= msg.checksums@);
        }
        events
    }
}

/// Offset and multiplier of the per-value mixing step.
pub const MIX_OFFSET: u64 = 0xcbf2_9ce4_8422_2325;

pub const MIX_PRIME: u64 = 0x0000_0100_0000_01b3;

/// One mixing step: fold `v` into the running hash `h`.
pub open spec fn mix(h: u64, v: u64) -> u64 {
    vstd::wrapping::u64_specs::wrapping_mul(h ^ v, MIX_PRIME)
}

/// Hash of one entity `(id, x bits, y bits, owner)`.
pub open spec fn entity_hash(e: (u32, u32, u32, u8)) -> u64 {
    mix(mix(mix(mix(MIX_OFFSET, e.0 as u64), e.1 as u64), e.2 as u64), e.3 as u64)
}

/// Hash of one resource stock `(player, kind, amount bits)`.
pub open spec fn resource_hash(r: (u8, u8, u32)) -> u64 {
    mix(mix(mix(mix(MIX_OFFSET, 0xff), r.0 as u64), r.1 as u64), r.2 as u64)
}

pub open spec fn entity_total(es: Seq<(u32, u32, u32, u8)>) -> int
    decreases es.len(),
{
    if es.len() == 0 {
        0
    } else {
        entity_total(es.drop_last()) + entity_hash(es.last())
    }
}

pub open spec fn resource_total(rs: Seq<(u8, u8, u32)>) -> int
    decreases rs.len(),
{
    if rs.len() == 0 {
        0
    } else {
        resource_total(rs.drop_last()) + resource_hash(rs.last())
    }
}

/// Checksum of a simulation state: the sum of the hashes of its entities and
/// resource stocks, modulo 2^32.  A sum does not depend on the order of its
/// terms, so every peer computes the same value whatever order it keeps its
/// entities in.
pub open spec fn state_checksum(es: Seq<(u32, u32, u32, u8)>, rs: Seq<(u8, u8, u32)>) -> u32 {
    ((entity_total(es) + resource_total(rs)) % 0x1_0000_0000) as u32
}

fn mix_exec(h: u64, v: u64) -> (r: u64)
    ensures
        r == mix(h, v),
{
    (h ^ v).wrapping_mul(MIX_PRIME)
}

proof fn lemma_entity_total_concat(a: Seq<(u32, u32, u32, u8)>, b: Seq<(u32, u32, u32, u8)>)
    ensures
        entity_total(a + b) == entity_total(a) + entity_total(b),
    decreases b.len(),
{
    if b.len() == 0 {
        assert(a + b =~= a);
    } else {
        lemma_entity_total_concat(a, b.drop_last());
        assert((a + b).drop_last() =~= a + b.drop_last());
    }
}

proof fn lemma_resource_total_concat(a: Seq<(u8, u8, u32)>, b: Seq<(u8, u8, u32)>)
    ensures
        resource_total(a + b) == resource_total(a) + resource_total(b),
    decreases b.len(),
{
    if b.len() == 0 {
        assert(a + b =~= a);
    } else {
        lemma_resource_total_concat(a, b.drop_last());
        assert((a + b).drop_last() =~= a + b.drop_last());
    }
}

proof fn lemma_entity_total_remove(s: Seq<(u32, u32, u32, u8)>, i: int)
    requires
        0 <= i < s.len(),
    ensures
        entity_total(s) == entity_total(s.remove(i)) + entity_hash(s[i]),
{
    let one = seq![s[i]];
    assert(one.drop_last() =~= Seq::<(u32, u32, u32, u8)>::empty());
    assert(entity_total(one.drop_last()) == 0);
    assert(entity_total(one) == entity_hash(s[i]));
    assert(s =~= s.take(i) + (one + s.skip(i + 1)));
    assert(s.remove(i) =~= s.take(i) + s.skip(i + 1));
    lemma_entity_total_concat(s.take(i), one + s.skip(i + 1));
    lemma_entity_total_concat(one, s.skip(i + 1));
    lemma_entity_total_concat(s.take(i), s.skip(i + 1));
}

proof fn lemma_entity_total_multiset(a: Seq<(u32, u32, u32, u8)>, b: Seq<(u32, u32, u32, u8)>)
    requires
        a.to_multiset() == b.to_multiset(),
    ensures
        entity_total(a) == entity_total(b),
    decreases a.len(),
{
    broadcast use vstd::seq_lib::group_to_multiset_ensures;

    if a.len() == 0 {
        assert(b.to_multiset().len() == 0);
        assert(b =~= Seq::<(u32, u32, u32, u8)>::empty());
    } else {
        let x = a.last();
        let d = a.drop_last();
        assert(a =~= d.push(x));
        assert(a.to_multiset().count(x) > 0);
        assert(b.contains(x));
        let i = choose|i: int| 0 <= i < b.len() && b[i] == x;
        let rest = b.remove(i);
        assert(rest.to_multiset() =~= d.to_multiset()) by {
            assert(d.push(x).to_multiset() =~= d.to_multiset().insert(x));
            assert(d.to_multiset().insert(x).remove(x) =~= d.to_multiset());
        }
        lemma_entity_total_multiset(d, rest);
        lemma_entity_total_remove(b, i);
    }
}

proof fn lemma_resource_total_remove(s: Seq<(u8, u8, u32)>, i: int)
    requires
        0 <= i < s.len(),
    ensures
        resource_total(s) == resource_total(s.remove(i)) + resource_hash(s[i]),
{
    let one = seq![s[i]];
    assert(one.drop_last() =~= Seq::<(u8, u8, u32)>::empty());
    assert(resource_total(one.drop_last()) == 0);
    assert(resource_total(one) == resource_hash(s[i]));
    assert(s =~= s.take(i) + (one + s.skip(i + 1)));
    assert(s.remove(i) =~= s.take(i) + s.skip(i + 1));
    lemma_resource_total_concat(s.take(i), one + s.skip(i + 1));
    lemma_resource_total_concat(one, s.skip(i + 1));
    lemma_resource_total_concat(s.take(i), s.skip(i + 1));
}

proof fn lemma_resource_total_multiset(a: Seq<(u8, u8, u32)>, b: Seq<(u8, u8, u32)>)
    requires
        a.to_multiset() == b.to_multiset(),
    ensures
        resource_total(a) == resource_total(b),
    decreases a.len(),
{
    broadcast use vstd::seq_lib::group_to_multiset_ensures;

    if a.len() == 0 {
        assert(b.to_multiset().len() == 0);
        assert(b =~= Seq::<(u8, u8, u32)>::empty());
    } else {
        let x = a.last();
        let d = a.drop_last();
        assert(a =~= d.push(x));
        assert(a.to_multiset().count(x) > 0);
        assert(b.contains(x));
        let i = choose|i: int| 0 <= i < b.len() && b[i] == x;
        let rest = b.remove(i);
        assert(rest.to_multiset() =~= d.to_multiset()) by {
            assert(d.push(x).to_multiset() =~= d.to_multiset().insert(x));
            assert(d.to_multiset().insert(x).remove(x) =~= d.to_multiset());
        }
        lemma_resource_total_multiset(d, rest);
        lemma_resource_total_remove(b, i);
    }
}

/// The checksum does not depend on the order of the entities or of the
/// resource stocks: any rearrangement of either list (the same elements,
/// each as often) gives the same checksum.
pub proof fn lemma_checksum_order_independent(
    e1: Seq<(u32, u32, u32, u8)>,
    e2: Seq<(u32, u32, u32, u8)>,
    r1: Seq<(u8, u8, u32)>,
    r2: Seq<(u8, u8, u32)>,
)
    requires
        e1.to_multiset() == e2.to_multiset(),
        r1.to_multiset() == r2.to_multiset(),
    ensures
        state_checksum(e1, r1) == state_checksum(e2, r2),
{
    lemma_entity_total_multiset(e1, e2);
    lemma_resource_total_multiset(r1, r2);
}

/// The checksum of the state made of `entities` (id, bits of x, bits of y,
/// owner) and `resources` (player, resource kind, bits of the amount).
pub fn calculate_game_checksum(entities: &Vec<(u32, u32, u32, u8)>, resources: &Vec<(u8, u8, u32)>) -> (r: u32)
    ensures
        r == state_checksum(entities@, resources@),
{
    let mut acc: u64 = 0;
    let mut i: usize = 0;
    while i < entities.len()
        invariant
            i <= entities@.len(),
            acc == entity_total(entities@.take(i as int)) % 0x1_0000_0000_0000_0000,
        decreases entities@.len() - i,
    {
        let (id, x, y, owner) = entities[i];
        let h = mix_exec(mix_exec(mix_exec(mix_exec(MIX_OFFSET, id as u64), x as u64), y as u64), owner as u64);
        proof {
            assert(entities@.take(i + 1).drop_last() =~= entities@.take(i as int));
            assert(h == entity_hash(entities@[i as int]));
            vstd::arithmetic::div_mod::lemma_add_mod_noop(
                entity_total(entities@.take(i as int)),
                h as int,
                0x1_0000_0000_0000_0000,
            );
        }
        acc = acc.wrapping_add(h);
        i = i + 1;
    }
    proof {
        assert(entities@.take(i as int) =~= entities@);
    }
    let mut j: usize = 0;
    while j < resources.len()
        invariant
            j <= resources@.len(),
            acc == (entity_total(entities@) + resource_total(resources@.take(j as int)))
                % 0x1_0000_0000_0000_0000,
        decreases resources@.len() - j,
    {
        let (player, kind, amount) = resources[j];
        let h = mix_exec(mix_exec(mix_exec(mix_exec(MIX_OFFSET, 0xff), player as u64), kind as u64), amount as u64);
        proof {
            assert(resources@.take(j + 1).drop_last() =~= resources@.take(j as int));
            assert(h == resource_hash(resources@[j as int]));
            vstd::arithmetic::div_mod::lemma_add_mod_noop(
                entity_total(entities@) + resource_total(resources@.take(j as int)),
                h as int,
                0x1_0000_0000_0000_0000,
            );
        }
        acc = acc.wrapping_add(h);
        j = j + 1;
    }
    proof {
        assert(resources@.take(j as int) =~= resources@);
        vstd::arithmetic::div_mod::lemma_mod_mod(
            entity_total(entities@) + resource_total(resources@),
            0x1_0000_0000,
            0x1_0000_0000,
        );
    }
    (acc % 0x1_0000_0000) as u32
}

} // verus!
