//! The send server's rules: what a caller is told about devices, sends and
//! the queue; the retry ladder; what each host signal becomes; and the
//! decisions a queued send and a drain pass make between their network
//! calls.

use vstd::prelude::*;
use crate::beam::{human_bytes, human_bytes_spec, OfferInfo};
use crate::devices::{label, label_spec, Named};
use crate::host::HostSignal;
use crate::order::{same_text, views};
use crate::outbox::{Outbox, Record, RECORD_TTL_SECS};
use crate::peers::{scope_of, short_id, short_id_spec, Peer, PendingPair, Scope};
use crate::proto::{sanitize_device, sanitized_device};
use crate::scope::ConnectError;
use crate::text::{
    append, debug_str, dec, join_strings, joined, own, push_char, push_dec, quoted, trim,
};

verus! {

/// How many pushed artifacts the status lists; the count is not capped.
pub const MAX_RECEIVED: usize = 100;

/// Shortest content-hash prefix that revokes ONE link.
pub const MIN_HASH_CHARS: usize = 8;

/// How many wake requests may be pending before one is dropped.
pub const WAKE_DEPTH: usize = 32;

// ── What the caller is told ─────────────────────────────────────────────────

/// What the caller is told about a paired device.
#[derive(Debug, PartialEq, Eq)]
pub struct DeviceInfo {
    pub device: String,
    pub node_id: String,
    pub node_id_short: String,
    /// What this device may do on THIS server.
    pub scope: String,
    pub paired_at: u64,
    pub last_seen: u64,
    /// "online", "offline", or "unknown" when nothing dialed it.
    pub presence: &'static str,
}

#[derive(Debug, PartialEq, Eq)]
pub struct BeamLink {
    /// The `vlerv://receive?...` link to hand to a person.
    pub link: String,
    pub ticket: String,
    pub name: String,
    pub size: u64,
    /// Unix seconds; after this the link is refused.
    pub expires_at: u64,
    pub hash: String,
}

/// What a send actually did. The variant is the whole point: "it is on your
/// phone" and "a copy is waiting here for your phone" are different events.
#[derive(Debug, PartialEq, Eq)]
pub enum Delivery {
    /// The bytes are on the other machine, which verified them itself.
    Delivered { device: String, node_id: String, name: String, size: u64, hash: String },
    /// The device did not answer, so the file was copied and the send was
    /// accepted for later. Nothing has arrived anywhere yet.
    Queued {
        device: String,
        node_id: String,
        name: String,
        size: u64,
        hash: String,
        /// The spool record this send became.
        id: String,
        expires_at: u64,
        /// The dial's own answer, verbatim.
        reason: String,
        /// The facts "queued" hides and the caller has to pass on.
        notes: Vec<String>,
    },
}

/// One accepted-but-undelivered send, as the status reports it.
#[derive(Debug, PartialEq, Eq)]
pub struct QueuedDelivery {
    pub id: String,
    pub device: String,
    pub node_id: String,
    pub node_id_short: String,
    pub name: String,
    pub size: u64,
    pub hash: String,
    pub source: String,
    pub enqueued_at: u64,
    pub expires_at: u64,
    pub attempts: u32,
    pub last_attempt_at: u64,
    pub last_error: Option<String>,
}

impl QueuedDelivery {
    pub fn from_record(r: Record) -> (q: QueuedDelivery)
        ensures
            q.id == r.id,
            q.device == r.device,
            q.node_id == r.peer,
            q.node_id_short@ == short_id_spec(r.peer@),
            q.name == r.name,
            q.size == r.size,
            q.hash == r.hash,
            q.source == r.source,
            q.enqueued_at == r.enqueued_at,
            q.expires_at == r.expires_at,
            q.attempts == r.attempts,
            q.last_attempt_at == r.last_attempt_at,
            q.last_error == r.last_error,
    {
        let short = short_id(r.peer.as_str());
        QueuedDelivery {
            node_id_short: short,
            id: r.id,
            device: r.device,
            node_id: r.peer,
            name: r.name,
            size: r.size,
            hash: r.hash,
            source: r.source,
            enqueued_at: r.enqueued_at,
            expires_at: r.expires_at,
            attempts: r.attempts,
            last_attempt_at: r.last_attempt_at,
            last_error: r.last_error,
        }
    }
}

#[derive(Debug, PartialEq, Eq)]
pub struct PairingInvite {
    /// The `vlerv://pair?ticket=...` link the human opens on the other device.
    pub link: String,
    pub ticket: String,
    pub node_id: String,
    pub device: String,
    pub expires_at: u64,
    pub fingerprint_hint: String,
    pub instructions: Vec<String>,
}

#[derive(Debug, PartialEq, Eq)]
pub struct PendingPairing {
    pub node_id: String,
    pub node_id_short: String,
    pub device: String,
    /// The six words that must also be on the other device's screen.
    pub fingerprint: Vec<String>,
    pub role: String,
    pub created_at: u64,
}

impl PendingPairing {
    pub fn from_pending(p: PendingPair) -> (q: PendingPairing)
        ensures
            q.node_id == p.node_id,
            q.node_id_short@ == short_id_spec(p.node_id@),
            q.device == p.device,
            q.fingerprint == p.fingerprint,
            q.role == p.role,
            q.created_at == p.created_at,
    {
        let short = short_id(p.node_id.as_str());
        PendingPairing {
            node_id_short: short,
            node_id: p.node_id,
            device: p.device,
            fingerprint: p.fingerprint,
            role: p.role,
            created_at: p.created_at,
        }
    }
}

#[derive(Debug, PartialEq, Eq)]
pub struct PairingOutcome {
    pub paired: bool,
    pub device: String,
    pub node_id: String,
    /// The scope granted to the new device here, when it was accepted.
    pub scope: Option<String>,
}

#[derive(Debug, PartialEq, Eq)]
pub struct OfferSummary {
    pub name: String,
    pub size: u64,
    pub link: String,
    pub expires_at: u64,
    pub fetches: u64,
    /// Content address, hex: also the offer id a link is revoked by.
    pub hash: String,
}

impl OfferSummary {
    pub fn from_offer(o: OfferInfo) -> (s: OfferSummary)
        ensures
            s.name == o.name,
            s.size == o.size,
            s.link == o.link,
            s.expires_at == o.expires_at,
            s.fetches == o.fetches,
            s.hash == o.id,
    {
        OfferSummary {
            name: o.name,
            size: o.size,
            link: o.link,
            expires_at: o.expires_at,
            fetches: o.fetches,
            hash: o.id,
        }
    }
}

#[derive(Debug, PartialEq, Eq)]
pub struct ReceivedArtifact {
    pub from: String,
    pub name: String,
    pub path: String,
    pub size: u64,
    pub hash: String,
}

impl Clone for ReceivedArtifact {
    fn clone(&self) -> (r: Self)
        ensures
            r == *self,
    {
        ReceivedArtifact {
            from: self.from.clone(),
            name: self.name.clone(),
            path: self.path.clone(),
            size: self.size,
            hash: self.hash.clone(),
        }
    }
}

/// A delivery this session gave up on: a file somebody was promised and
/// will not get.
#[derive(Debug, PartialEq, Eq)]
pub struct AbandonedDelivery {
    pub id: String,
    pub device: String,
    pub name: String,
    pub size: u64,
    pub reason: String,
    pub at: u64,
}

#[derive(Debug, PartialEq, Eq)]
pub struct ServerStatus {
    pub node_id: String,
    pub node_id_short: String,
    pub device: String,
    pub identity_dir: String,
    pub state_dir: String,
    /// False until a tool needed the network.
    pub booted: bool,
    /// Why the last boot failed, when one was tried and refused.
    pub boot_error: Option<String>,
    pub uptime_secs: u64,
    pub paired_devices: usize,
    pub active_offers: Vec<OfferSummary>,
    /// The last pushed arrivals, newest last, capped.
    pub received_artifacts: Vec<ReceivedArtifact>,
    /// How many arrived in all.
    pub received_total: u64,
    /// Every pending send, oldest first; never capped.
    pub queued: Vec<QueuedDelivery>,
    pub queued_total: usize,
    /// What those records weigh.
    pub queued_bytes: u64,
    /// What the queue costs this disk: one copy per distinct content.
    pub retained_bytes: u64,
    /// Record files this build could not put on the list above.
    pub queue_unreadable: Vec<String>,
    /// Deliveries given up on in this session, and how many in all.
    pub abandoned: Vec<AbandonedDelivery>,
    pub abandoned_total: u64,
    /// Whether a drain pass owns the queue right now.
    pub draining: bool,
    /// Why the queue can neither take nor move a send, when it cannot.
    pub queue_blocked_reason: Option<String>,
    pub roots: Vec<String>,
}

// ── The received log ────────────────────────────────────────────────────────

/// The pushed-artifact log: the last `MAX_RECEIVED` arrivals and how many
/// arrived in all, kept together so neither is read out of step.
pub struct ReceivedLog {
    items: Vec<ReceivedArtifact>,
    total: u64,
}

impl ReceivedLog {
    pub closed spec fn items(&self) -> Seq<ReceivedArtifact> {
        self.items@
    }

    pub closed spec fn total(&self) -> u64 {
        self.total
    }

    pub fn new() -> (l: ReceivedLog)
        ensures
            l.items().len() == 0,
            l.total() == 0,
    {
        ReceivedLog { items: Vec::new(), total: 0 }
    }

    pub fn total_count(&self) -> (r: u64)
        ensures
            r == self.total(),
    {
        self.total
    }

    pub fn len(&self) -> (r: usize)
        ensures
            r == self.items().len(),
    {
        self.items.len()
    }

    /// The listed arrivals, oldest first.
    pub fn listed(&self) -> (r: Vec<ReceivedArtifact>)
        ensures
            r@ == self.items(),
    {
        let mut out: Vec<ReceivedArtifact> = Vec::new();
        let mut i: usize = 0;
        while i < self.items.len()
            invariant
                i <= self.items.len(),
                out@ == self.items@.take(i as int),
            decreases self.items.len() - i,
        {
            out.push(self.items[i].clone());
            assert(out@ =~= self.items@.take(i + 1));
            i += 1;
        }
        assert(self.items@.take(i as int) =~= self.items@);
        out
    }

    /// Note one arrival. The oldest entry leaves once the list is full, so
    /// what is listed is what just landed; the count keeps counting.
    pub fn record(&mut self, a: ReceivedArtifact)
        requires
            old(self).total() < u64::MAX,
            old(self).items().len() <= MAX_RECEIVED,
        ensures
            final(self).total() == old(self).total() + 1,
            final(self).items() == (if old(self).items().len() < MAX_RECEIVED {
                old(self).items().push(a)
            } else {
                old(self).items().push(a).drop_first()
            }),
            final(self).items().len() <= MAX_RECEIVED,
    {
        self.total = self.total + 1;
        self.items.push(a);
        if self.items.len() > MAX_RECEIVED {
            let _ = self.items.remove(0);
        }
    }
}

/// However many arrivals a log has seen, it lists at most `MAX_RECEIVED`,
/// the newest last, and never fewer than it can: all of them while they fit.
pub proof fn law_received_log_is_bounded(before: Seq<ReceivedArtifact>, a: ReceivedArtifact)
    requires
        before.len() <= MAX_RECEIVED,
    ensures
        ({
            let after = if before.len() < MAX_RECEIVED {
                before.push(a)
            } else {
                before.push(a).drop_first()
            };
            &&& after.len() <= MAX_RECEIVED
            &&& after.last() == a
            &&& after.len() == (if before.len() < MAX_RECEIVED { before.len() + 1 } else { MAX_RECEIVED as nat })
        }),
{
}

// ── The retry ladder ───────────────────────────────────────────────────────

/// One minute, two, five, then ten forever: how long a peer that would not
/// take its queued sends is left alone after that many failed passes in a
/// row. The floor is the privacy half of the cadence: every dial is a
/// third-party lookup of who this machine talks to.
pub open spec fn ladder_secs(failures: u32) -> u64 {
    if failures <= 1 {
        60
    } else if failures == 2 {
        120
    } else if failures == 3 {
        300
    } else {
        600
    }
}

/// How long, in seconds, a peer is left alone after `failures` failed
/// passes in a row.
pub fn retry_delay(failures: u32) -> (r: u64)
    ensures
        r == ladder_secs(failures),
        60 <= r <= 600,
{
    let rung: u32 = if failures == 0 { 0 } else { failures - 1 };
    if rung == 0 {
        60
    } else if rung == 1 {
        120
    } else if rung == 2 {
        300
    } else {
        600
    }
}

/// When one peer may be dialed again, and how many passes in a row have
/// failed for it. Times are seconds on a clock that never runs backwards.
pub struct Backoff {
    pub failures: u32,
    pub next: u64,
}

/// The ladder, keyed by peer.
pub struct Ladder {
    entries: Vec<(String, Backoff)>,
}

pub open spec fn ladder_index(es: Seq<(String, Backoff)>, peer: Seq<char>) -> int
    decreases es.len(),
{
    if es.len() == 0 {
        -1
    } else if es.last().0@ == peer {
        es.len() - 1
    } else {
        ladder_index(es.drop_last(), peer)
    }
}

/// Each peer stands on the ladder once.
pub open spec fn names_distinct(es: Seq<(String, Backoff)>) -> bool {
    forall|i: int, j: int| 0 <= i < j < es.len() ==> (#[trigger] es[i]).0@ != (#[trigger] es[j]).0@
}

proof fn lemma_ladder_index(es: Seq<(String, Backoff)>, peer: Seq<char>)
    ensures
        -1 <= ladder_index(es, peer) < es.len(),
        ladder_index(es, peer) >= 0 ==> es[ladder_index(es, peer)].0@ == peer,
        ladder_index(es, peer) == -1 ==> forall|k: int| 0 <= k < es.len() ==> (#[trigger] es[k]).0@ != peer,
    decreases es.len(),
{
    if es.len() > 0 && es.last().0@ != peer {
        lemma_ladder_index(es.drop_last(), peer);
        assert forall|k: int| 0 <= k < es.len() - 1 implies es[k] == es.drop_last()[k] by {}
    }
}

proof fn lemma_index_of_unique(es: Seq<(String, Backoff)>, q: Seq<char>, k: int)
    requires
        names_distinct(es),
        0 <= k < es.len(),
        es[k].0@ == q,
    ensures
        ladder_index(es, q) == k,
    decreases es.len(),
{
    if k < es.len() - 1 {
        assert(es.last().0@ != q) by {
            assert(es[k].0@ != es[es.len() - 1].0@);
        }
        let d = es.drop_last();
        assert(names_distinct(d)) by {
            assert forall|i: int, j: int| 0 <= i < j < d.len() implies (#[trigger] d[i]).0@ != (#[trigger] d[j]).0@ by {
                assert(d[i] == es[i]);
                assert(d[j] == es[j]);
            }
        }
        assert(d[k] == es[k]);
        lemma_index_of_unique(d, q, k);
    }
}

/// The standing of `q` in `es`, as a value.
pub open spec fn standing_in(es: Seq<(String, Backoff)>, q: Seq<char>) -> Option<(u32, u64)> {
    let i = ladder_index(es, q);
    if i >= 0 {
        Some((es[i].1.failures, es[i].1.next))
    } else {
        None
    }
}

/// Two ladders agree on `q` when some index holds it in both with the same
/// standing, or neither holds it.
proof fn lemma_same_standing(a: Seq<(String, Backoff)>, b: Seq<(String, Backoff)>, q: Seq<char>, ka: int, kb: int)
    requires
        names_distinct(a),
        names_distinct(b),
        ka == -1 <==> kb == -1,
        ka == -1 ==> forall|k: int| 0 <= k < a.len() ==> (#[trigger] a[k]).0@ != q,
        kb == -1 ==> forall|k: int| 0 <= k < b.len() ==> (#[trigger] b[k]).0@ != q,
        ka != -1 ==> 0 <= ka < a.len() && 0 <= kb < b.len() && a[ka].0@ == q && b[kb].0@ == q && a[ka].1
            == b[kb].1,
    ensures
        standing_in(a, q) == standing_in(b, q),
{
    lemma_ladder_index(a, q);
    lemma_ladder_index(b, q);
    if ka != -1 {
        lemma_index_of_unique(a, q, ka);
        lemma_index_of_unique(b, q, kb);
    }
}

impl Ladder {
    pub closed spec fn entries(&self) -> Seq<(String, Backoff)> {
        self.entries@
    }

    /// Each peer stands once.
    pub open spec fn wf(&self) -> bool {
        names_distinct(self.entries())
    }

    /// The failure count and next-dial time standing for `peer`.
    pub open spec fn standing(&self, peer: Seq<char>) -> Option<(u32, u64)> {
        standing_in(self.entries(), peer)
    }

    pub fn new() -> (l: Ladder)
        ensures
            l.wf(),
            forall|q: Seq<char>| #[trigger] l.standing(q) is None,
    {
        Ladder { entries: Vec::new() }
    }

    fn find(&self, peer: &str) -> (r: Option<usize>)
        ensures
            match r {
                Some(i) => i == ladder_index(self.entries(), peer@) && i < self.entries().len(),
                None => ladder_index(self.entries(), peer@) == -1,
            },
    {
        let mut k = self.entries.len();
        proof {
            assert(self.entries@.subrange(0, k as int) =~= self.entries@);
        }
        while k > 0
            invariant
                k <= self.entries.len(),
                ladder_index(self.entries@, peer@) == ladder_index(self.entries@.subrange(0, k as int), peer@),
            decreases k,
        {
            if same_text(self.entries[k - 1].0.as_str(), peer) {
                return Some(k - 1);
            }
            proof {
                assert(self.entries@.subrange(0, k as int).drop_last() =~= self.entries@.subrange(0, k - 1));
            }
            k -= 1;
        }
        None
    }

    /// Step this peer one rung down the ladder at `now`.
    pub fn back_off(&mut self, peer: &str, now: u64)
        requires
            old(self).wf(),
            now <= u64::MAX - 600,
        ensures
            final(self).wf(),
            ({
                let failures: u32 = match old(self).standing(peer@) {
                    Some((f, _)) => if f == u32::MAX { u32::MAX } else { (f + 1) as u32 },
                    None => 1,
                };
                final(self).standing(peer@) == Some((failures, (now + ladder_secs(failures)) as u64))
            }),
            forall|q: Seq<char>| q != peer@ ==> #[trigger] final(self).standing(q) == old(self).standing(q),
    {
        proof {
            lemma_ladder_index(self.entries@, peer@);
        }
        let ghost e0 = self.entries@;
        match self.find(peer) {
            Some(i) => {
                let (name, b) = self.entries.remove(i);
                let failures = b.failures.saturating_add(1);
                let next = now + retry_delay(failures);
                self.entries.insert(i, (name, Backoff { failures, next }));
                proof {
                    let e1 = self.entries@;
                    assert(e1 =~= e0.update(i as int, e1[i as int]));
                    assert(names_distinct(e1)) by {
                        assert forall|a: int, c: int| 0 <= a < c < e1.len() implies (#[trigger] e1[a]).0@ != (#[trigger] e1[c]).0@ by {
                            assert(e1[a].0@ == e0[a].0@);
                            assert(e1[c].0@ == e0[c].0@);
                        }
                    }
                    lemma_index_of_unique(e1, peer@, i as int);
                    assert forall|q: Seq<char>| q != peer@ implies #[trigger] standing_in(e1, q) == standing_in(e0, q) by {
                        lemma_ladder_index(e0, q);
                        let k = ladder_index(e0, q);
                        if k >= 0 {
                            assert(k != i);
                            lemma_same_standing(e1, e0, q, k, k);
                        } else {
                            assert forall|m: int| 0 <= m < e1.len() implies (#[trigger] e1[m]).0@ != q by {
                                assert(e1[m].0@ == e0[m].0@);
                            }
                            lemma_same_standing(e1, e0, q, -1, -1);
                        }
                    }
                }
            },
            None => {
                let failures: u32 = 1;
                let next = now + retry_delay(failures);
                self.entries.push((own(peer), Backoff { failures, next }));
                proof {
                    let e1 = self.entries@;
                    assert(e1.drop_last() =~= e0);
                    assert(e1.last().0@ == peer@);
                    assert forall|q: Seq<char>| q != peer@ implies #[trigger] standing_in(e1, q) == standing_in(e0, q) by {
                        assert(ladder_index(e1, q) == ladder_index(e0, q));
                        lemma_ladder_index(e0, q);
                        if ladder_index(e0, q) >= 0 {
                            assert(e1[ladder_index(e0, q)] == e0[ladder_index(e0, q)]);
                        }
                    }
                    assert(names_distinct(e1)) by {
                        assert forall|a: int, c: int| 0 <= a < c < e1.len() implies (#[trigger] e1[a]).0@ != (#[trigger] e1[c]).0@ by {
                            assert(e1[a] == e0[a]);
                            if c < e0.len() {
                                assert(e1[c] == e0[c]);
                            }
                        }
                    }
                }
            },
        }
    }

    /// Forget this peer's failures: it just took a file, so whatever the
    /// ladder had learned about it is stale.
    pub fn clear(&mut self, peer: &str)
        requires
            old(self).wf(),
        ensures
            final(self).wf(),
            final(self).standing(peer@) is None,
            forall|q: Seq<char>| q != peer@ ==> #[trigger] final(self).standing(q) == old(self).standing(q),
    {
        proof {
            lemma_ladder_index(self.entries@, peer@);
        }
        let ghost e0 = self.entries@;
        match self.find(peer) {
            None => {},
            Some(i) => {
                let _ = self.entries.remove(i);
                proof {
                    let e1 = self.entries@;
                    assert(e1 =~= e0.remove(i as int));
                    assert(names_distinct(e1)) by {
                        assert forall|a: int, c: int| 0 <= a < c < e1.len() implies (#[trigger] e1[a]).0@ != (#[trigger] e1[c]).0@ by {
                            let a0 = if a < i { a } else { a + 1 };
                            let c0 = if c < i { c } else { c + 1 };
                            assert(e1[a] == e0[a0]);
                            assert(e1[c] == e0[c0]);
                        }
                    }
                    assert forall|m: int| 0 <= m < e1.len() implies (#[trigger] e1[m]).0@ != peer@ by {
                        let m0 = if m < i { m } else { m + 1 };
                        assert(e1[m] == e0[m0]);
                        assert(e0[m0].0@ != e0[i as int].0@);
                    }
                    lemma_ladder_index(e1, peer@);
                    if ladder_index(e1, peer@) >= 0 {
                        assert(e1[ladder_index(e1, peer@)].0@ != peer@);
                    }
                    assert forall|q: Seq<char>| q != peer@ implies #[trigger] standing_in(e1, q) == standing_in(e0, q) by {
                        lemma_ladder_index(e0, q);
                        let k = ladder_index(e0, q);
                        if k >= 0 {
                            assert(k != i);
                            let k1 = if k < i { k } else { k - 1 };
                            assert(e1[k1] == e0[k]);
                            lemma_same_standing(e1, e0, q, k1, k);
                        } else {
                            assert forall|m: int| 0 <= m < e1.len() implies (#[trigger] e1[m]).0@ != q by {
                                let m0 = if m < i { m } else { m + 1 };
                                assert(e1[m] == e0[m0]);
                            }
                            lemma_same_standing(e1, e0, q, -1, -1);
                        }
                    }
                }
            },
        }
    }

    /// May this peer be dialed at `now`? A peer nothing has failed for is
    /// always due, which is what makes the boot pass try everything at once.
    pub fn due(&self, peer: &str, now: u64) -> (b: bool)
        ensures
            b == (match self.standing(peer@) {
                Some((_, next)) => next <= now,
                None => true,
            }),
    {
        match self.find(peer) {
            Some(i) => self.entries[i].1.next <= now,
            None => true,
        }
    }
}

/// After a failed pass a peer is not dialed again for at least a minute,
/// however many times it has failed: the ladder never dials a sleeping
/// device more than once a minute.
pub proof fn law_ladder_waits_a_minute(failures: u32, now: u64, t: u64)
    requires
        now <= u64::MAX - 600,
        t < now + 60,
    ensures
        !((now + ladder_secs(failures)) as u64 <= t),
{
}


// ── The sentences ──────────────────────────────────────────────────────────

/// What a record whose source has left this server's roots is told. It is
/// HELD, not dropped: a session started over other roots may still serve it.
pub open spec fn held_outside_roots_spec(source: Seq<char>, listed: Seq<char>) -> Seq<char> {
    "held, not sent: "@ + debug_str(source) + " is outside this server's send roots ("@ + listed
        + "), so it is neither delivered nor dropped. A vlerv-mcp session whose VLERV_MCP_ROOTS covers that file delivers this record; otherwise it waits here until it expires."@
}

pub fn held_outside_roots(record: &Record, listed: &str) -> (r: String)
    ensures
        r@ == held_outside_roots_spec(record.source@, listed@),
{
    let mut m = own("held, not sent: ");
    append(&mut m, quoted(record.source.as_str()).as_str());
    append(&mut m, " is outside this server's send roots (");
    append(&mut m, listed);
    append(&mut m, "), so it is neither delivered nor dropped. A vlerv-mcp session whose VLERV_MCP_ROOTS covers that file delivers this record; otherwise it waits here until it expires.");
    m
}

/// This server's send roots as that sentence names them.
pub fn listed_roots(roots: &Vec<String>) -> (r: String)
    ensures
        r@ == joined(roots@.map_values(|x: String| debug_str(x@)), ", "@),
{
    let mut q: Vec<String> = Vec::new();
    let mut i: usize = 0;
    while i < roots.len()
        invariant
            i <= roots.len(),
            views(q@) == roots@.map_values(|x: String| debug_str(x@)).take(i as int),
        decreases roots.len() - i,
    {
        let d = quoted(roots[i].as_str());
        let ghost before = q@;
        q.push(d);
        proof {
            assert(views(q@) =~= views(before).push(d@));
            assert(views(q@) =~= roots@.map_values(|x: String| debug_str(x@)).take(i + 1));
        }
        i += 1;
    }
    assert(roots@.map_values(|x: String| debug_str(x@)).take(roots.len() as int) =~= roots@.map_values(|x: String| debug_str(x@)));
    join_strings(&q, ", ")
}

/// Does this scope string let the device land artifacts? `None` when the
/// string names no scope this build knows; each caller states its own
/// default.
pub fn grants_control(scope: &str) -> (r: Option<bool>)
    ensures
        r == (match scope_of(scope@) {
            Some(s) => Some(s == Scope::Control),
            None => None,
        }),
{
    match Scope::parse(scope) {
        Ok(s) => Some(s.may_land_artifacts()),
        Err(_) => None,
    }
}

/// The refusal a device that has not granted this server control gets.
pub open spec fn needs_control_spec(peer: Peer, scope: Seq<char>, this_device: Seq<char>) -> Seq<char> {
    label_spec(peer.device@, peer.node_id@) + " has not granted this server control. It paired this server at scope "@
        + debug_str(scope) + "; pushing a file needs \"control\". On that device, open its Vlervtifacts peer settings, find \""@
        + this_device + "\", and set its scope to \"control\"."@
}

pub fn needs_control(peer: &Peer, scope: &str, this_device: &str) -> (r: String)
    ensures
        r@ == needs_control_spec(*peer, scope@, this_device@),
{
    let mut m = label(peer);
    append(&mut m, " has not granted this server control. It paired this server at scope ");
    append(&mut m, quoted(scope).as_str());
    append(&mut m, "; pushing a file needs \"control\". On that device, open its Vlervtifacts peer settings, find \"");
    append(&mut m, this_device);
    append(&mut m, "\", and set its scope to \"control\".");
    m
}

/// What every record owned by a peer this server cannot look up is told: a
/// peer list that did not load is HIDDEN, not gone, and reading its absence
/// as an unpairing would delete the records.
pub open spec fn peer_list_blocked_spec(reason: Seq<char>) -> Seq<char> {
    "held, not sent: this server cannot read its own peer list ("@ + reason
        + "), so it cannot tell a device that was unpaired from one it simply cannot see. Repair that file or move it aside; queued sends wait until it reads."@
}

pub fn peer_list_blocked(reason: &str) -> (r: String)
    ensures
        r@ == peer_list_blocked_spec(reason@),
{
    let mut m = own("held, not sent: this server cannot read its own peer list (");
    append(&mut m, reason);
    append(&mut m, "), so it cannot tell a device that was unpaired from one it simply cannot see. Repair that file or move it aside; queued sends wait until it reads.");
    m
}

pub open spec fn connect_text(cause: ConnectError) -> Seq<char> {
    match cause {
        ConnectError::Unreachable(m) => m@,
        ConnectError::Refused(m) => m@,
    }
}

/// The sentence a peer that would not talk produces; the cause is quoted,
/// not paraphrased.
pub open spec fn not_reachable_spec(peer: Peer, cause: ConnectError) -> Seq<char> {
    label_spec(peer.device@, peer.node_id@) + " is not reachable: "@ + connect_text(cause)
        + ". Check that the device is awake, on a network, and that Vlervtifacts is running on it."@
}

pub fn not_reachable(peer: &Peer, cause: &ConnectError) -> (r: String)
    ensures
        r@ == not_reachable_spec(*peer, *cause),
{
    let mut m = label(peer);
    append(&mut m, " is not reachable: ");
    append(&mut m, cause.message().as_str());
    append(&mut m, ". Check that the device is awake, on a network, and that Vlervtifacts is running on it.");
    m
}

/// The name this server announces: the tool, then the machine, sanitized
/// like every device name on the wire.
pub open spec fn device_name_spec(machine: Seq<char>) -> Seq<char> {
    sanitized_device("vlerv-mcp @ "@ + machine)
}

pub fn device_name(machine: &str) -> (r: String)
    ensures
        r@ == device_name_spec(machine@),
{
    let mut m = own("vlerv-mcp @ ");
    append(&mut m, machine);
    sanitize_device(m.as_str())
}

/// The name this server announces survives the wire's device-name check
/// unchanged.
pub proof fn law_device_name_survives_the_wire(machine: Seq<char>)
    ensures
        sanitized_device(device_name_spec(machine)) == device_name_spec(machine),
{
    crate::proto::law_sanitize_device_idempotent("vlerv-mcp @ "@ + machine);
}

/// The human half of pairing, written to be read out loud. The last line
/// names the grant direction and this server's own name.
pub fn pairing_instructions(device: &str) -> (r: Vec<String>)
    ensures
        r@.len() == 6,
        r@[5]@ == "Grant direction: confirm_pairing decides what the DEVICE may do here. For this server to push files to the device, the DEVICE must grant \""@
            + device@ + "\" the \"control\" scope in its own peer settings. Without that, send_to_device is refused."@,
{
    let mut v: Vec<String> = Vec::new();
    v.push(own("Give the link to the person at the other device \u{2014} it is a capability, so send it over a channel you trust."));
    v.push(own("On that device, open the link. On iOS, tap it; on a Mac running Vlervtifacts, click it."));
    v.push(own("Both screens now show six words. They must match. If they differ, reject the pairing."));
    v.push(own("Call pair_status to read this server's six words, then confirm_pairing { accept: true } to finish."));
    v.push(own("The link expires 10 minutes after it is minted, and one link pairs one device."));
    let mut last = own("Grant direction: confirm_pairing decides what the DEVICE may do here. For this server to push files to the device, the DEVICE must grant \"");
    append(&mut last, device);
    append(&mut last, "\" the \"control\" scope in its own peer settings. Without that, send_to_device is refused.");
    v.push(last);
    v
}


// ── What each host signal becomes ───────────────────────────────────────────

/// What this server does with one host signal. A headless host has no
/// window: a pairing is parked for the status tools, an arrival is logged
/// for the status, a peer that dialed in wakes the drain, and each leaves a
/// line for a human tailing the log.
pub enum SinkAction {
    Park { pending: PendingPair, log: String },
    Log(String),
    Record { artifact: ReceivedArtifact, log: String },
    Wake { peer: String, log: String },
}

pub fn sink_action(signal: HostSignal) -> (r: SinkAction)
    ensures
        match signal {
            HostSignal::PairPending(p) => r matches SinkAction::Park { pending, log } && pending == p
                && log@ == "vlerv-mcp: pairing with "@ + p.device@ + " ("@ + short_id_spec(p.node_id@)
                + ") \u{2014} fingerprint: "@ + joined(views(p.fingerprint@), " "@),
            HostSignal::OpenOnHost { peer, path, reader_mode } => r matches SinkAction::Log(log) && log@
                == "vlerv-mcp: "@ + short_id_spec(peer@) + " asked to open "@ + path@
                + " \u{2014} this server has no viewer"@,
            HostSignal::ArtifactReceived { peer, path, name, size, hash } => r matches SinkAction::Record {
                artifact,
                log,
            } && artifact == (ReceivedArtifact { from: peer, name, path, size, hash }) && log@ == "vlerv-mcp: "@
                + short_id_spec(peer@) + " pushed "@ + name@ + " to "@ + path@,
            HostSignal::PeerConnected { peer, device, scope } => r matches SinkAction::Wake { peer: p, log }
                && p == peer && log@ == "vlerv-mcp: "@ + device@ + " ("@ + short_id_spec(peer@)
                + ") connected; this server grants it "@ + debug_str(scope@),
        },
{
    match signal {
        HostSignal::PairPending(p) => {
            let mut log = own("vlerv-mcp: pairing with ");
            append(&mut log, p.device.as_str());
            append(&mut log, " (");
            append(&mut log, short_id(p.node_id.as_str()).as_str());
            append(&mut log, ") \u{2014} fingerprint: ");
            append(&mut log, join_strings(&p.fingerprint, " ").as_str());
            SinkAction::Park { pending: p, log }
        },
        HostSignal::OpenOnHost { peer, path, reader_mode } => {
            let mut log = own("vlerv-mcp: ");
            append(&mut log, short_id(peer.as_str()).as_str());
            append(&mut log, " asked to open ");
            append(&mut log, path.as_str());
            append(&mut log, " \u{2014} this server has no viewer");
            SinkAction::Log(log)
        },
        HostSignal::ArtifactReceived { peer, path, name, size, hash } => {
            let mut log = own("vlerv-mcp: ");
            append(&mut log, short_id(peer.as_str()).as_str());
            append(&mut log, " pushed ");
            append(&mut log, name.as_str());
            append(&mut log, " to ");
            append(&mut log, path.as_str());
            SinkAction::Record { artifact: ReceivedArtifact { from: peer, name, path, size, hash }, log }
        },
        HostSignal::PeerConnected { peer, device, scope } => {
            let mut log = own("vlerv-mcp: ");
            append(&mut log, device.as_str());
            append(&mut log, " (");
            append(&mut log, short_id(peer.as_str()).as_str());
            append(&mut log, ") connected; this server grants it ");
            append(&mut log, quoted(scope.as_str()).as_str());
            SinkAction::Wake { peer, log }
        },
    }
}

// ── Accepting a send for a device that did not answer ───────────────────────

pub open spec fn ttl_days() -> nat {
    (RECORD_TTL_SECS / 86400) as nat
}

/// The notes a queued answer carries: every way this promise differs from
/// the delivery the user asked for.
pub open spec fn queued_notes(peer: Peer) -> Seq<Seq<char>> {
    let base = seq![
        "The file was copied as it stands right now, so later edits to it do not change what "@
            + peer.device@ + " receives."@,
        "Delivery needs this server running. If this session ends first, the file goes out at the first network-touching tool call of a later session over the same state directory \u{2014} not before."@,
        "The copy is kept for "@ + dec(ttl_days()) + " days from when it was accepted, then deleted undelivered."@,
    ];
    if peer.last_ack_scope is None {
        base.push(
            "This server has never completed a handshake with "@ + peer.device@
                + ", so its \"control\" grant is unverified. Without that grant the device refuses the file when it wakes, and the send waits here until it expires."@,
        )
    } else {
        base
    }
}

/// The queued answer, written for whoever has to relay it.
pub fn queued(peer: &Peer, record: Record, why: String) -> (d: Delivery)
    ensures
        d matches Delivery::Queued { device, node_id, name, size, hash, id, expires_at, reason, notes } && {
            &&& device == peer.device
            &&& node_id == peer.node_id
            &&& name == record.name
            &&& size == record.size
            &&& hash == record.hash
            &&& id == record.id
            &&& expires_at == record.expires_at
            &&& reason == why
            &&& views(notes@) == queued_notes(*peer)
        },
{
    let mut notes: Vec<String> = Vec::new();
    let mut n1 = own("The file was copied as it stands right now, so later edits to it do not change what ");
    append(&mut n1, peer.device.as_str());
    append(&mut n1, " receives.");
    notes.push(n1);
    notes.push(own("Delivery needs this server running. If this session ends first, the file goes out at the first network-touching tool call of a later session over the same state directory \u{2014} not before."));
    let mut n3 = own("The copy is kept for ");
    push_dec(&mut n3, RECORD_TTL_SECS / 86400);
    append(&mut n3, " days from when it was accepted, then deleted undelivered.");
    notes.push(n3);
    if peer.last_ack_scope.is_none() {
        let mut n4 = own("This server has never completed a handshake with ");
        append(&mut n4, peer.device.as_str());
        append(&mut n4, ", so its \"control\" grant is unverified. Without that grant the device refuses the file when it wakes, and the send waits here until it expires.");
        notes.push(n4);
    }
    assert(views(notes@) =~= queued_notes(*peer));
    Delivery::Queued {
        device: peer.device.clone(),
        node_id: peer.node_id.clone(),
        name: record.name,
        size: record.size,
        hash: record.hash,
        id: record.id,
        expires_at: record.expires_at,
        reason: why,
        notes,
    }
}

pub open spec fn unpaired_message(asked: Peer) -> Seq<char> {
    label_spec(asked.device@, asked.node_id@) + " is no longer paired with this server, so nothing was queued."@
}

pub open spec fn not_granted_message(p: Peer, granted: Seq<char>, this_device: Seq<char>) -> Seq<char> {
    needs_control_spec(p, granted, this_device)
        + " Nothing was queued: a device that has not granted control refuses these bytes on arrival, and the file would sit here as a private copy until it expired. The scope above is what the last completed handshake reported; if the grant has been widened since, the send goes through as soon as that device is reachable again."@
}

/// Everything that can refuse a queued send before its bytes are copied,
/// in order: the device must still be paired, must not be known to deny
/// control (a scope nobody can read is not a no), the queue must not be
/// blocked, and the spool must have room. Returns the peer as it stands now.
pub fn queue_precheck(
    asked: &Peer,
    current: Option<&Peer>,
    this_device: &str,
    blocked: Option<&str>,
    outbox: &Outbox,
    size: u64,
) -> (r: Result<Peer, String>)
    ensures
        match current {
            None => r matches Err(e) && e@ == unpaired_message(*asked),
            Some(p) => match p.last_ack_scope {
                Some(g) if scope_of(g@) matches Some(s) && s != Scope::Control => r matches Err(e) && e@
                    == not_granted_message(*p, g@, this_device@),
                _ => match blocked {
                    Some(reason) => r matches Err(e) && e@ == "the send to "@ + label_spec(p.device@, p.node_id@)
                        + " was not queued: "@ + reason@,
                    None => match crate::outbox::room_refusal(outbox.records(), label_spec(p.device@, p.node_id@), size) {
                        Some(m) => r matches Err(e) && e@ == m,
                        None => r == Ok::<Peer, String>(*p),
                    },
                },
            },
        },
{
    let p = match current {
        None => {
            let mut m = label(asked);
            append(&mut m, " is no longer paired with this server, so nothing was queued.");
            return Err(m);
        },
        Some(p) => p,
    };
    match &p.last_ack_scope {
        Some(g) => {
            match grants_control(g.as_str()) {
                Some(false) => {
                    let mut m = needs_control(p, g.as_str(), this_device);
                    append(&mut m, " Nothing was queued: a device that has not granted control refuses these bytes on arrival, and the file would sit here as a private copy until it expired. The scope above is what the last completed handshake reported; if the grant has been widened since, the send goes through as soon as that device is reachable again.");
                    return Err(m);
                },
                _ => {},
            }
        },
        None => {},
    }
    match blocked {
        Some(reason) => {
            let mut m = own("the send to ");
            append(&mut m, label(p).as_str());
            append(&mut m, " was not queued: ");
            append(&mut m, reason);
            return Err(m);
        },
        None => {},
    }
    let l = label(p);
    match outbox.room_for(l.as_str(), size) {
        Err(e) => Err(e),
        Ok(()) => Ok(p.clone()),
    }
}

/// What a staged copy decides: refused because it grew past the cap after
/// the file was read, the same send already pending (the retry of a call
/// that looked like it failed), or a fresh record to write. The first two
/// name the pin the staging took, for the caller to release: the pin is
/// this call's own, since staging refuses a name the store already holds.
pub enum Staging {
    TooBig { message: String, release: String },
    Duplicate { record: Record, release: String },
    Fresh,
}

pub open spec fn too_big_message(name: Seq<char>, size: u64, cap: u64, p: Peer) -> Seq<char> {
    name + " is "@ + human_bytes_spec(size) + " \u{2014} beam v1 caps at "@ + human_bytes_spec(cap) + ", so the send to "@
        + label_spec(p.device@, p.node_id@)
        + " was not queued. The file was under the cap when it was read and over it when it was copied, so nothing was kept here."@
}

/// `id` is the record id the copy was staged under.
pub fn after_staging(outbox: &Outbox, peer: &Peer, id: &str, name: &str, staged_size: u64, staged_hash: &str, cap: u64) -> (r: Staging)
    ensures
        staged_size > cap ==> (r matches Staging::TooBig { message, release } && message@ == too_big_message(name@, staged_size, cap, *peer)
            && release@ == crate::outbox::tag_of(id@)),
        staged_size <= cap ==> match crate::outbox::first_pending(outbox.records(), peer.node_id@, staged_hash@) {
            Some(x) => r matches Staging::Duplicate { record, release } && record == x && release@ == crate::outbox::tag_of(id@),
            None => r is Fresh,
        },
{
    if staged_size > cap {
        let mut m = own(name);
        append(&mut m, " is ");
        append(&mut m, human_bytes(staged_size).as_str());
        append(&mut m, " \u{2014} beam v1 caps at ");
        append(&mut m, human_bytes(cap).as_str());
        append(&mut m, ", so the send to ");
        append(&mut m, label(peer).as_str());
        append(&mut m, " was not queued. The file was under the cap when it was read and over it when it was copied, so nothing was kept here.");
        return Staging::TooBig { message: m, release: crate::outbox::tag_name(id) };
    }
    match outbox.find_pending(peer.node_id.as_str(), staged_hash) {
        Some(x) => Staging::Duplicate { record: x, release: crate::outbox::tag_name(id) },
        None => Staging::Fresh,
    }
}

/// What the enqueue of a fresh staged copy leaves to do: keep the record,
/// or report the refusal and release the pin staged under `id`, which no
/// record will ever name.
pub fn after_enqueue(enqueued: Result<Record, String>, id: &str) -> (r: Result<Record, (String, String)>)
    ensures
        match enqueued {
            Ok(rec) => r == Ok::<Record, (String, String)>(rec),
            Err(e) => r matches Err((m, release)) && m == e && release@ == crate::outbox::tag_of(id@),
        },
{
    match enqueued {
        Ok(rec) => Ok(rec),
        Err(e) => Err((e, crate::outbox::tag_name(id))),
    }
}

// ── The status totals ──────────────────────────────────────────────────────

/// What the queue costs this disk: one copy per distinct content, the
/// first record naming it counted.
pub open spec fn retained_size(s: Seq<Record>) -> nat
    decreases s.len(),
{
    if s.len() == 0 {
        0
    } else if s.drop_last().map_values(|r: Record| r.hash@).contains(s.last().hash@) {
        retained_size(s.drop_last())
    } else {
        retained_size(s.drop_last()) + s.last().size as nat
    }
}

/// The disk a queue costs is never more than what it owes: one copy backs
/// every record naming the same content.
pub proof fn law_retained_never_exceeds_owed(s: Seq<Record>)
    ensures
        retained_size(s) <= crate::outbox::total_size(s),
    decreases s.len(),
{
    if s.len() > 0 {
        law_retained_never_exceeds_owed(s.drop_last());
    }
}

/// What the pending records weigh, and what they cost this disk.
pub fn queue_totals(records: &Vec<Record>) -> (r: (u64, u64))
    requires
        crate::outbox::total_size(records@) <= u64::MAX,
    ensures
        r.0 == crate::outbox::total_size(records@),
        r.1 == retained_size(records@),
        r.1 <= r.0,
{
    let mut total: u64 = 0;
    let mut retained: u64 = 0;
    let mut hashes: Vec<String> = Vec::new();
    let mut i: usize = 0;
    assert(records@.take(0) =~= Seq::<Record>::empty());
    while i < records.len()
        invariant
            i <= records.len(),
            crate::outbox::total_size(records@) <= u64::MAX,
            total == crate::outbox::total_size(records@.take(i as int)),
            retained == retained_size(records@.take(i as int)),
            views(hashes@) == records@.take(i as int).map_values(|r: Record| r.hash@),
        decreases records.len() - i,
    {
        proof {
            let t = records@.take(i + 1);
            assert(t.drop_last() =~= records@.take(i as int));
            assert(t.last() == records@[i as int]);
            crate::outbox::lemma_total_size_prefix(records@, i + 1);
            law_retained_never_exceeds_owed(t);
        }
        total = total + records[i].size;
        if !crate::scope::contains_text(&hashes, records[i].hash.as_str()) {
            retained = retained + records[i].size;
        }
        let c = records[i].hash.clone();
        let ghost before = hashes@;
        hashes.push(c);
        proof {
            assert(views(hashes@) =~= views(before).push(c@));
            assert(views(hashes@) =~= records@.take(i + 1).map_values(|r: Record| r.hash@));
        }
        i += 1;
    }
    assert(records@.take(records.len() as int) =~= records@);
    proof {
        law_retained_never_exceeds_owed(records@);
    }
    (total, retained)
}

// ── One drain pass for one peer ─────────────────────────────────────────────

/// What a pass decides about a peer before it dials.
pub enum PeerStep {
    /// Nothing is queued for it.
    Skip,
    /// Every record is held with this reason, and the ladder steps.
    Hold(String),
    /// The device was unpaired: every record is given up on now.
    GiveUpAll,
    /// Dial this peer.
    Dial(Peer),
}

pub fn before_dial(record_count: usize, peer_list_error: Option<&str>, peer: Option<&Peer>) -> (r: PeerStep)
    ensures
        record_count == 0 ==> r is Skip,
        record_count > 0 ==> match peer_list_error {
            Some(reason) => r matches PeerStep::Hold(m) && m@ == peer_list_blocked_spec(reason@),
            None => match peer {
                None => r is GiveUpAll,
                Some(p) => r == PeerStep::Dial(*p),
            },
        },
{
    if record_count == 0 {
        return PeerStep::Skip;
    }
    match peer_list_error {
        Some(reason) => PeerStep::Hold(peer_list_blocked(reason)),
        None => match peer {
            None => PeerStep::GiveUpAll,
            Some(p) => PeerStep::Dial(p.clone()),
        },
    }
}

/// What the dial decides: go on with the session's grant, or hold every
/// record with the dial's own answer or the missing grant. A scope this
/// build cannot read holds the record, so a newer build can still deliver it.
pub fn after_dial(peer: &Peer, dialed: Result<String, ConnectError>, this_device: &str) -> (r: Result<(), String>)
    ensures
        match dialed {
            Err(cause) => r matches Err(m) && m@ == not_reachable_spec(*peer, cause),
            Ok(scope) => if scope_of(scope@) == Some(Scope::Control) {
                r is Ok
            } else {
                r matches Err(m) && m@ == needs_control_spec(*peer, scope@, this_device@)
            },
        },
{
    match dialed {
        Err(cause) => Err(not_reachable(peer, &cause)),
        Ok(scope) => {
            match grants_control(scope.as_str()) {
                Some(true) => Ok(()),
                _ => Err(needs_control(peer, scope.as_str(), this_device)),
            }
        },
    }
}

/// What a pass does with the next record of a peer it reached.
pub enum Triage {
    /// The pass has pushed as much as one pass may push to one peer.
    Stop,
    /// Held with this reason: neither pushed nor dropped.
    Held(String),
    /// Check the staged bytes are still there, then push.
    Push,
}

/// The pass's decision for one record. Only a push spends the per-pass
/// budget, so a run of held records cannot starve a deliverable one behind
/// it.
pub fn triage(pushes: usize, record: &Record, in_roots: bool, listed: &str) -> (r: Triage)
    ensures
        pushes >= crate::outbox::MAX_PER_PASS ==> r is Stop,
        pushes < crate::outbox::MAX_PER_PASS && !in_roots ==> (r matches Triage::Held(m) && m@
            == held_outside_roots_spec(record.source@, listed@)),
        pushes < crate::outbox::MAX_PER_PASS && in_roots ==> r is Push,
{
    if pushes >= crate::outbox::MAX_PER_PASS {
        return Triage::Stop;
    }
    if !in_roots {
        return Triage::Held(held_outside_roots(record, listed));
    }
    Triage::Push
}

/// How many pushes a pass makes over one peer's queue, taken in order, where
/// each entry says whether that record is deliverable (inside this session's
/// roots, its staged bytes still present). This is `triage`'s rule: a
/// deliverable record is pushed while the budget lasts, a held or gone one
/// costs nothing, and at the bound the pass stops.
pub open spec fn pass_pushes(deliverable: Seq<bool>) -> nat
    decreases deliverable.len(),
{
    if deliverable.len() == 0 {
        0
    } else {
        let before = pass_pushes(deliverable.drop_last());
        if before >= crate::outbox::MAX_PER_PASS {
            before
        } else if deliverable.last() {
            before + 1
        } else {
            before
        }
    }
}

/// How many records of the queue are deliverable.
pub open spec fn deliverable_count(deliverable: Seq<bool>) -> nat
    decreases deliverable.len(),
{
    if deliverable.len() == 0 {
        0
    } else {
        deliverable_count(deliverable.drop_last()) + if deliverable.last() { 1nat } else { 0nat }
    }
}

/// A pass pushes every deliverable record up to the per-pass bound, however
/// many held records stand in front of them: exactly the smaller of the two.
/// So it never pushes more than the bound, and a run of held records at the
/// head of the queue never starves a deliverable one behind it.
pub proof fn law_a_pass_pushes_what_it_can_up_to_its_bound(deliverable: Seq<bool>)
    ensures
        pass_pushes(deliverable) == if deliverable_count(deliverable) < crate::outbox::MAX_PER_PASS {
            deliverable_count(deliverable)
        } else {
            crate::outbox::MAX_PER_PASS as nat
        },
        pass_pushes(deliverable) <= crate::outbox::MAX_PER_PASS,
    decreases deliverable.len(),
{
    if deliverable.len() > 0 {
        law_a_pass_pushes_what_it_can_up_to_its_bound(deliverable.drop_last());
    }
}

/// What one push's answer decides.
pub enum Settle {
    /// It landed: the record leaves, then its pin.
    Completed,
    /// The session died under the request: every record is held with this
    /// reason and nothing more goes out over it.
    EndPass(String),
    /// An answer about this one record; the next still gets its turn.
    Note(String),
}

pub fn settle(pushed: Result<(), crate::scope::PushFailure>) -> (r: Settle)
    ensures
        match pushed {
            Ok(_) => r is Completed,
            Err(crate::scope::PushFailure::Transport(why)) => r == Settle::EndPass(why),
            Err(crate::scope::PushFailure::Local(m)) => r == Settle::Note(m),
            Err(crate::scope::PushFailure::Denied(m)) => r == Settle::Note(m),
        },
{
    match pushed {
        Ok(()) => Settle::Completed,
        Err(crate::scope::PushFailure::Transport(why)) => Settle::EndPass(why),
        Err(crate::scope::PushFailure::Local(m)) => Settle::Note(m),
        Err(crate::scope::PushFailure::Denied(m)) => Settle::Note(m),
    }
}


// ── One pass, record by record ──────────────────────────────────────────────

/// What one pass over one peer's queue has done so far: the pushes it spent
/// and whether any delivery landed. It walks the records in the order
/// `Outbox::for_peer` gives them.
pub struct PassState {
    pushes: usize,
    landed: bool,
}

/// How a pass over a peer that answered ends: a landed delivery clears the
/// peer's retry ladder; a pass where nothing moved steps it.
pub enum PassEnd {
    ClearLadder,
    BackOff,
}

impl PassState {
    pub closed spec fn pushes(&self) -> nat {
        self.pushes as nat
    }

    pub closed spec fn landed(&self) -> bool {
        self.landed
    }

    pub fn new() -> (p: PassState)
        ensures
            p.pushes() == 0,
            !p.landed(),
    {
        PassState { pushes: 0, landed: false }
    }

    /// The decision for the next record: `triage` over the pushes spent.
    pub fn next(&self, record: &Record, in_roots: bool, listed: &str) -> (r: Triage)
        ensures
            self.pushes() >= crate::outbox::MAX_PER_PASS ==> r is Stop,
            self.pushes() < crate::outbox::MAX_PER_PASS && !in_roots ==> (r matches Triage::Held(m) && m@
                == held_outside_roots_spec(record.source@, listed@)),
            self.pushes() < crate::outbox::MAX_PER_PASS && in_roots ==> r is Push,
    {
        triage(self.pushes, record, in_roots, listed)
    }

    /// A record `next` sent to `Push`, once its staged bytes were looked
    /// for: present, it is pushed and spends one push; gone, it is given up
    /// on and spends nothing. The answer says whether to push.
    pub fn spend(&mut self, present: bool) -> (push: bool)
        requires
            old(self).pushes() < crate::outbox::MAX_PER_PASS,
        ensures
            push == present,
            final(self).pushes() == old(self).pushes() + if present { 1nat } else { 0nat },
            final(self).landed() == old(self).landed(),
    {
        if present {
            self.pushes = self.pushes + 1;
        }
        present
    }

    /// A push settled. `true` when the pass goes on to the next record; a
    /// dead session ends it.
    pub fn settled(&mut self, s: &Settle) -> (go_on: bool)
        ensures
            final(self).pushes() == old(self).pushes(),
            final(self).landed() == (old(self).landed() || s is Completed),
            go_on == !(s is EndPass),
    {
        match s {
            Settle::Completed => {
                self.landed = true;
                true
            },
            Settle::EndPass(_) => false,
            Settle::Note(_) => true,
        }
    }

    /// How the pass ends for the retry ladder.
    pub fn end(&self) -> (e: PassEnd)
        ensures
            self.landed() ==> e is ClearLadder,
            !self.landed() ==> e is BackOff,
    {
        if self.landed {
            PassEnd::ClearLadder
        } else {
            PassEnd::BackOff
        }
    }
}

/// A step of `PassState` is a step of the model: each record that reaches
/// the budget adds to the pushes exactly what `pass_pushes` adds for it, so
/// a pass driven by `next` and `spend` pushes `pass_pushes` of the queue's
/// deliverable flags, and never more than the bound.
pub proof fn law_a_pass_step_follows_the_model(seen: Seq<bool>, deliverable: bool)
    ensures
        pass_pushes(seen.push(deliverable)) == if pass_pushes(seen) >= crate::outbox::MAX_PER_PASS {
            pass_pushes(seen)
        } else if deliverable {
            pass_pushes(seen) + 1
        } else {
            pass_pushes(seen)
        },
{
    assert(seen.push(deliverable).drop_last() =~= seen);
}

// ── A whole pass over one peer's queue ──────────────────────────────────────

/// What a pass did to one record of the peer's queue.
pub enum RecordEffect {
    /// The pass stopped before it: the budget was spent or the session died.
    Untouched,
    /// Held with this reason: neither pushed nor dropped.
    Held(String),
    /// Its staged bytes are gone: the record is given up on, its pin released.
    GivenUp,
    /// It landed: the record is completed, then this tag is released.
    Completed(String),
    /// This push was refused: the record is noted with the reason.
    Noted(String),
    /// The session died under this push: every record is held with the
    /// reason and the pass ends.
    SessionDied(String),
}

/// How a whole pass ends for the peer.
pub enum PassFinish {
    ClearLadder,
    BackOff,
    /// Every record of the peer is held with this reason, and the ladder steps.
    HoldAll(String),
}

/// Pushes spent, whether the session died, and whether anything landed,
/// after a pass's first `n` records.
pub open spec fn pass_run(in_roots: Seq<bool>, present: Seq<bool>, pushed: Seq<Result<(), crate::scope::PushFailure>>, n: nat) -> (nat, bool, bool)
    decreases n,
{
    if n == 0 {
        (0, false, false)
    } else {
        let (p, d, l) = pass_run(in_roots, present, pushed, (n - 1) as nat);
        let k = n - 1;
        if d || p >= crate::outbox::MAX_PER_PASS || !in_roots[k] || !present[k] {
            (p, d, l)
        } else {
            match pushed[k] {
                Ok(_) => (p + 1, d, true),
                Err(crate::scope::PushFailure::Transport(_)) => (p + 1, true, l),
                Err(_) => (p + 1, d, l),
            }
        }
    }
}

/// Whether the pass still reaches record `k`.
pub open spec fn pass_reaches(in_roots: Seq<bool>, present: Seq<bool>, pushed: Seq<Result<(), crate::scope::PushFailure>>, k: nat) -> bool {
    !pass_run(in_roots, present, pushed, k).1 && pass_run(in_roots, present, pushed, k).0 < crate::outbox::MAX_PER_PASS
}

/// What the pass does to one record, given its outcomes.
pub open spec fn effect_fits(e: RecordEffect, r: Record, in_roots: bool, present: bool, pushed: Result<(), crate::scope::PushFailure>, listed: Seq<char>, reached: bool) -> bool {
    if !reached {
        e is Untouched
    } else if !in_roots {
        e matches RecordEffect::Held(m) && m@ == held_outside_roots_spec(r.source@, listed)
    } else if !present {
        e is GivenUp
    } else {
        match pushed {
            Ok(_) => e matches RecordEffect::Completed(t) && t@ == r.tag@,
            Err(crate::scope::PushFailure::Transport(w)) => e matches RecordEffect::SessionDied(w2) && w2@ == w@,
            Err(crate::scope::PushFailure::Local(m)) => e matches RecordEffect::Noted(m2) && m2@ == m@,
            Err(crate::scope::PushFailure::Denied(m)) => e matches RecordEffect::Noted(m2) && m2@ == m@,
        }
    }
}

/// One pass over a peer that answered, record by record in queue order,
/// given each record's outcomes: whether its source is inside this
/// session's roots, whether its staged bytes are present, and what its push
/// gave (read only for a record that is pushed). It runs `PassState`.
pub fn pass_effects(
    records: &Vec<Record>,
    in_roots: &Vec<bool>,
    present: &Vec<bool>,
    pushed: &Vec<Result<(), crate::scope::PushFailure>>,
    listed: &str,
) -> (r: (Vec<RecordEffect>, PassFinish))
    requires
        in_roots.len() == records.len(),
        present.len() == records.len(),
        pushed.len() == records.len(),
    ensures
        r.0.len() == records.len(),
        forall|k: int| 0 <= k < records.len() ==> effect_fits(#[trigger] r.0@[k], records@[k], in_roots@[k], present@[k],
            pushed@[k], listed@, pass_reaches(in_roots@, present@, pushed@, k as nat)),
        forall|k: int| 0 <= k < records.len() && pass_reaches(in_roots@, present@, pushed@, k as nat) && !in_roots@[k]
            ==> (#[trigger] r.0@[k] matches RecordEffect::Held(m) && m@ == held_outside_roots_spec(records@[k].source@, listed@)),
        forall|k: int| 0 <= k < records.len() && pass_reaches(in_roots@, present@, pushed@, k as nat) && in_roots@[k]
            && present@[k] && pushed@[k] is Ok ==> (#[trigger] r.0@[k] matches RecordEffect::Completed(t) && t@ == records@[k].tag@),
        forall|k: int| 0 <= k < records.len() && pass_run(in_roots@, present@, pushed@, k as nat).0 >= crate::outbox::MAX_PER_PASS
            ==> #[trigger] r.0@[k] is Untouched,
        pass_run(in_roots@, present@, pushed@, records.len() as nat).0 <= crate::outbox::MAX_PER_PASS,
        pass_run(in_roots@, present@, pushed@, records.len() as nat).1 <==> r.1 is HoldAll,
        !pass_run(in_roots@, present@, pushed@, records.len() as nat).1 ==> (r.1 is ClearLadder
            <==> pass_run(in_roots@, present@, pushed@, records.len() as nat).2),
{
    let mut st = PassState::new();
    let mut died: Option<String> = None;
    let mut effects: Vec<RecordEffect> = Vec::new();
    let mut k: usize = 0;
    while k < records.len()
        invariant
            k <= records.len(),
            in_roots.len() == records.len(),
            present.len() == records.len(),
            pushed.len() == records.len(),
            effects.len() == k,
            st.pushes() == pass_run(in_roots@, present@, pushed@, k as nat).0,
            died is Some == pass_run(in_roots@, present@, pushed@, k as nat).1,
            st.landed() == pass_run(in_roots@, present@, pushed@, k as nat).2,
            st.pushes() <= crate::outbox::MAX_PER_PASS,
            forall|j: int| 0 <= j < k ==> effect_fits(#[trigger] effects@[j], records@[j], in_roots@[j], present@[j],
                pushed@[j], listed@, pass_reaches(in_roots@, present@, pushed@, j as nat)),
        decreases records.len() - k,
    {
        let ghost before = effects@;
        let e = if died.is_some() {
            RecordEffect::Untouched
        } else {
            match st.next(&records[k], in_roots[k], listed) {
                Triage::Stop => RecordEffect::Untouched,
                Triage::Held(m) => RecordEffect::Held(m),
                Triage::Push => {
                    if !st.spend(present[k]) {
                        RecordEffect::GivenUp
                    } else {
                        match &pushed[k] {
                            Ok(()) => {
                                st.settled(&Settle::Completed);
                                RecordEffect::Completed(records[k].tag.clone())
                            },
                            Err(crate::scope::PushFailure::Transport(w)) => {
                                st.settled(&Settle::EndPass(w.clone()));
                                died = Some(w.clone());
                                RecordEffect::SessionDied(w.clone())
                            },
                            Err(crate::scope::PushFailure::Local(m)) => {
                                st.settled(&Settle::Note(m.clone()));
                                RecordEffect::Noted(m.clone())
                            },
                            Err(crate::scope::PushFailure::Denied(m)) => {
                                st.settled(&Settle::Note(m.clone()));
                                RecordEffect::Noted(m.clone())
                            },
                        }
                    }
                },
            }
        };
        effects.push(e);
        proof {
            assert(effects@[k as int] == e);
            assert forall|j: int| 0 <= j < k + 1 implies effect_fits(#[trigger] effects@[j], records@[j], in_roots@[j], present@[j],
                pushed@[j], listed@, pass_reaches(in_roots@, present@, pushed@, j as nat)) by {
                if j < k {
                    assert(effects@[j] == before[j]);
                }
            }
        }
        k += 1;
    }
    let finish = match died {
        Some(w) => PassFinish::HoldAll(w),
        None => match st.end() {
            PassEnd::ClearLadder => PassFinish::ClearLadder,
            PassEnd::BackOff => PassFinish::BackOff,
        },
    };
    (effects, finish)
}

// ── Passes in flight ────────────────────────────────────────────────────────

/// The peers with a pass running, each with whether another pass was asked
/// for while it ran: (peer, asked again).
pub open spec fn flight_index(s: Seq<(Seq<char>, bool)>, p: Seq<char>) -> int
    decreases s.len(),
{
    if s.len() == 0 {
        -1
    } else if s.last().0 == p {
        s.len() - 1
    } else {
        flight_index(s.drop_last(), p)
    }
}

pub open spec fn flight_distinct(s: Seq<(Seq<char>, bool)>) -> bool {
    forall|i: int, j: int| 0 <= i < j < s.len() ==> (#[trigger] s[i]).0 != (#[trigger] s[j]).0
}

/// Asking for a pass: one starts when none runs for the peer; otherwise the
/// running one is told to go round again.
pub open spec fn after_begin(s: Seq<(Seq<char>, bool)>, p: Seq<char>) -> Seq<(Seq<char>, bool)> {
    let i = flight_index(s, p);
    if i >= 0 { s.update(i, (p, true)) } else { s.push((p, false)) }
}

/// Whether the pass that just ended must run once more.
pub open spec fn runs_again(s: Seq<(Seq<char>, bool)>, p: Seq<char>) -> bool {
    flight_index(s, p) >= 0 && s[flight_index(s, p)].1
}

/// A pass ending: it goes round again when asked to while it ran, and the
/// peer leaves the registry otherwise.
pub open spec fn after_finish(s: Seq<(Seq<char>, bool)>, p: Seq<char>) -> Seq<(Seq<char>, bool)> {
    let i = flight_index(s, p);
    if i < 0 {
        s
    } else if s[i].1 {
        s.update(i, (p, false))
    } else {
        s.remove(i)
    }
}

proof fn lemma_flight_index(s: Seq<(Seq<char>, bool)>, p: Seq<char>)
    ensures
        -1 <= flight_index(s, p) < s.len(),
        flight_index(s, p) >= 0 ==> s[flight_index(s, p)].0 == p,
        flight_index(s, p) == -1 ==> forall|k: int| 0 <= k < s.len() ==> (#[trigger] s[k]).0 != p,
        flight_distinct(s) ==> forall|k: int| 0 <= k < s.len() && (#[trigger] s[k]).0 == p ==> flight_index(s, p) == k,
    decreases s.len(),
{
    if s.len() > 0 {
        lemma_flight_index(s.drop_last(), p);
        assert forall|k: int| 0 <= k < s.len() - 1 implies s[k] == s.drop_last()[k] by {}
    }
}

proof fn lemma_begin_keeps(s: Seq<(Seq<char>, bool)>, p: Seq<char>)
    requires
        flight_distinct(s),
    ensures
        flight_distinct(after_begin(s, p)),
        flight_index(after_begin(s, p), p) >= 0,
        after_begin(s, p)[flight_index(after_begin(s, p), p)] == (p, flight_index(s, p) >= 0),
{
    lemma_flight_index(s, p);
    let t = after_begin(s, p);
    lemma_flight_index(t, p);
    if flight_index(s, p) >= 0 {
        let i = flight_index(s, p);
        assert(flight_distinct(t)) by {
            assert forall|a: int, b: int| 0 <= a < b < t.len() implies (#[trigger] t[a]).0 != (#[trigger] t[b]).0 by {
                assert(s[a].0 != s[b].0);
            }
        }
        assert(t[i].0 == p);
    } else {
        assert(flight_distinct(t)) by {
            assert forall|a: int, b: int| 0 <= a < b < t.len() implies (#[trigger] t[a]).0 != (#[trigger] t[b]).0 by {
                if b < s.len() {
                    assert(s[a].0 != s[b].0);
                } else {
                    assert(s[a].0 != p);
                }
            }
        }
        assert(t[s.len() as int].0 == p);
    }
}

proof fn lemma_finish_keeps(s: Seq<(Seq<char>, bool)>, p: Seq<char>)
    requires
        flight_distinct(s),
    ensures
        flight_distinct(after_finish(s, p)),
        runs_again(s, p) ==> flight_index(after_finish(s, p), p) >= 0
            && !after_finish(s, p)[flight_index(after_finish(s, p), p)].1,
        !runs_again(s, p) ==> flight_index(after_finish(s, p), p) == -1,
{
    lemma_flight_index(s, p);
    let t = after_finish(s, p);
    let i = flight_index(s, p);
    if i >= 0 {
        if s[i].1 {
            assert(flight_distinct(t)) by {
                assert forall|a: int, b: int| 0 <= a < b < t.len() implies (#[trigger] t[a]).0 != (#[trigger] t[b]).0 by {
                    assert(s[a].0 != s[b].0);
                }
            }
            lemma_flight_index(t, p);
            assert(t[i].0 == p);
        } else {
            assert(flight_distinct(t)) by {
                assert forall|a: int, b: int| 0 <= a < b < t.len() implies (#[trigger] t[a]).0 != (#[trigger] t[b]).0 by {
                    if b < i {
                        assert(s[a].0 != s[b].0);
                    } else if a < i {
                        assert(s[a].0 != s[b + 1].0);
                    } else {
                        assert(s[a + 1].0 != s[b + 1].0);
                    }
                }
            }
            lemma_flight_index(t, p);
            assert forall|k: int| 0 <= k < t.len() implies (#[trigger] t[k]).0 != p by {
                if k < i {
                    assert(s[k].0 != s[i].0);
                } else {
                    assert(s[k + 1].0 != s[i].0);
                }
            }
        }
    }
}

/// A request for a pass that arrives while one runs for the same peer is
/// never lost: the running pass goes round once more when it ends.
pub proof fn law_a_request_during_a_pass_is_never_lost(s: Seq<(Seq<char>, bool)>, p: Seq<char>)
    requires
        flight_distinct(s),
        flight_index(s, p) >= 0,
    ensures
        runs_again(after_begin(s, p), p),
{
    lemma_begin_keeps(s, p);
}

/// However many requests arrive during one pass, they fold into one more
/// pass, after which the peer is idle.
pub proof fn law_requests_during_a_pass_fold_into_one(s: Seq<(Seq<char>, bool)>, p: Seq<char>)
    requires
        flight_distinct(s),
        flight_index(s, p) >= 0,
    ensures
        ({
            let asked_twice = after_begin(after_begin(s, p), p);
            &&& runs_again(asked_twice, p)
            &&& !runs_again(after_finish(asked_twice, p), p)
            &&& flight_index(after_finish(after_finish(asked_twice, p), p), p) == -1
        }),
{
    lemma_begin_keeps(s, p);
    let once = after_begin(s, p);
    lemma_begin_keeps(once, p);
    let twice = after_begin(once, p);
    lemma_finish_keeps(twice, p);
    lemma_finish_keeps(after_finish(twice, p), p);
}

/// A pass that nobody asked to repeat ends, and leaves the peer idle.
pub proof fn law_an_unasked_pass_ends(s: Seq<(Seq<char>, bool)>, p: Seq<char>)
    requires
        flight_distinct(s),
        flight_index(s, p) == -1,
    ensures
        !runs_again(after_begin(s, p), p),
        flight_index(after_finish(after_begin(s, p), p), p) == -1,
{
    lemma_begin_keeps(s, p);
    lemma_finish_keeps(after_begin(s, p), p);
}

/// One registry entry: a peer with a pass running, and whether it was asked
/// for again meanwhile.
pub struct InFlight {
    pub peer: String,
    pub again: bool,
}

/// The passes in flight. At most one pass runs per peer, and a request that
/// arrives while it runs is folded into one more pass.
pub struct Passes {
    entries: Vec<InFlight>,
}

pub open spec fn flight_view(es: Seq<InFlight>) -> Seq<(Seq<char>, bool)> {
    es.map_values(|e: InFlight| (e.peer@, e.again))
}

impl Passes {
    pub closed spec fn view(&self) -> Seq<(Seq<char>, bool)> {
        flight_view(self.entries@)
    }

    pub fn new() -> (r: Passes)
        ensures
            r@.len() == 0,
            flight_distinct(r@),
    {
        Passes { entries: Vec::new() }
    }

    fn find(&self, peer: &str) -> (r: Option<usize>)
        ensures
            match r {
                Some(i) => i == flight_index(self@, peer@) && i < self@.len(),
                None => flight_index(self@, peer@) == -1,
            },
    {
        let ghost v = self@;
        let mut k = self.entries.len();
        proof {
            assert(v.subrange(0, k as int) =~= v);
        }
        while k > 0
            invariant
                k <= self.entries.len(),
                v == self@,
                v.len() == self.entries.len(),
                flight_index(v, peer@) == flight_index(v.subrange(0, k as int), peer@),
            decreases k,
        {
            proof {
                assert(v.subrange(0, k as int).last() == v[k - 1]);
                assert(v.subrange(0, k as int).drop_last() =~= v.subrange(0, k - 1));
            }
            if same_text(self.entries[k - 1].peer.as_str(), peer) {
                return Some(k - 1);
            }
            k -= 1;
        }
        None
    }

    /// Ask for a pass over `peer`'s queue: `true` when the caller is to run
    /// it now, `false` when one is running and will go round again.
    pub fn begin(&mut self, peer: &str) -> (start: bool)
        requires
            flight_distinct(old(self)@),
        ensures
            start == (flight_index(old(self)@, peer@) == -1),
            final(self)@ == after_begin(old(self)@, peer@),
            flight_distinct(final(self)@),
    {
        proof {
            lemma_begin_keeps(self@, peer@);
        }
        match self.find(peer) {
            Some(i) => {
                self.entries.set(i, InFlight { peer: own(peer), again: true });
                assert(self@ =~= after_begin(old(self)@, peer@));
                false
            },
            None => {
                self.entries.push(InFlight { peer: own(peer), again: false });
                assert(self@ =~= after_begin(old(self)@, peer@));
                true
            },
        }
    }

    /// A pass over `peer`'s queue ended: `true` when it is to run once
    /// more, because somebody asked while it ran.
    pub fn finish(&mut self, peer: &str) -> (again: bool)
        requires
            flight_distinct(old(self)@),
        ensures
            again == runs_again(old(self)@, peer@),
            final(self)@ == after_finish(old(self)@, peer@),
            flight_distinct(final(self)@),
    {
        proof {
            lemma_finish_keeps(self@, peer@);
        }
        match self.find(peer) {
            Some(i) => {
                if self.entries[i].again {
                    self.entries.set(i, InFlight { peer: own(peer), again: false });
                    assert(self@ =~= after_finish(old(self)@, peer@));
                    true
                } else {
                    self.entries.remove(i);
                    assert(self@ =~= after_finish(old(self)@, peer@));
                    false
                }
            },
            None => false,
        }
    }
}


// ── Beam links ──────────────────────────────────────────────────────────────

/// The refusal a hash argument too short to name one link gets.
pub open spec fn short_hash_message() -> Seq<char> {
    "hash must be at least 8 characters \u{2014} server_status reports the hash of every live link"@
}

/// Which live links `stop_beam` revokes. A server that never booted has no
/// offer to revoke, and says so only when its boot failed: "no offers" and
/// "I could not look" are different answers. With a hash argument every
/// link it prefixes goes — revoking one link too many is recoverable.
pub fn stop_targets(booted: bool, boot_error: Option<String>, live: Vec<OfferInfo>, hash: Option<&str>) -> (r: Result<Vec<OfferInfo>, String>)
    ensures
        !booted ==> match boot_error {
            Some(e) => r matches Err(m) && m@ == "cannot check beam links: "@ + e@,
            None => r matches Ok(v) && v@.len() == 0,
        },
        booted ==> match hash {
            None => r == Ok::<Vec<OfferInfo>, String>(live),
            Some(h) => match crate::devices::needle_spec(trim(h@), MIN_HASH_CHARS) {
                None => r matches Err(m) && m@ == short_hash_message(),
                Some(n) => {
                    let m = crate::devices::prefix_matches(live@, n);
                    if m.len() == 0 {
                        r matches Err(e) && e@ == "no live beam link matches "@ + debug_str(trim(h@))
                    } else {
                        r matches Ok(v) && v@ == m
                    }
                },
            },
        },
{
    if !booted {
        return match boot_error {
            Some(e) => {
                let mut m = own("cannot check beam links: ");
                append(&mut m, e.as_str());
                Err(m)
            },
            None => Ok(Vec::new()),
        };
    }
    let raw = match hash {
        None => {
            return Ok(live);
        },
        Some(h) => crate::text::trimmed(h),
    };
    let n = match crate::devices::needle(raw.as_str(), MIN_HASH_CHARS) {
        Some(n) => n,
        None => {
            return Err(own("hash must be at least 8 characters \u{2014} server_status reports the hash of every live link"));
        },
    };
    let matched = crate::devices::by_prefix(live.as_slice(), n.as_str());
    if matched.len() == 0 {
        let mut m = own("no live beam link matches ");
        append(&mut m, quoted(raw.as_str()).as_str());
        return Err(m);
    }
    let mut out: Vec<OfferInfo> = Vec::new();
    let mut i: usize = 0;
    while i < matched.len()
        invariant
            i <= matched.len(),
            out@ == crate::devices::derefs(matched@).take(i as int),
        decreases matched.len() - i,
    {
        let o = matched[i].clone();
        let ghost before = out@;
        out.push(o);
        proof {
            assert(out@ =~= crate::devices::derefs(matched@).take(i + 1));
        }
        i += 1;
    }
    assert(crate::devices::derefs(matched@).take(matched.len() as int) =~= crate::devices::derefs(matched@));
    Ok(out)
}

// ── Devices and pairings ────────────────────────────────────────────────────

/// A device's presence: "online" for a session this process already holds,
/// otherwise what a probe found, or "unknown" when nothing dialed it.
pub fn presence(live_session: bool, probe: Option<bool>) -> (r: &'static str)
    ensures
        r@ == if live_session {
            "online"@
        } else {
            match probe {
                None => "unknown"@,
                Some(true) => "online"@,
                Some(false) => "offline"@,
            }
        },
{
    if live_session {
        return "online";
    }
    match probe {
        None => "unknown",
        Some(true) => "online",
        Some(false) => "offline",
    }
}

/// One paired device as `list_devices` reports it.
pub fn device_info(peer: Peer, presence: &'static str) -> (d: DeviceInfo)
    ensures
        d.device == peer.device,
        d.node_id == peer.node_id,
        d.node_id_short@ == short_id_spec(peer.node_id@),
        d.scope@ == crate::peers::scope_text(peer.scope),
        d.paired_at == peer.paired_at,
        d.last_seen == peer.last_seen,
        d.presence == presence,
{
    let short = short_id(peer.node_id.as_str());
    let scope = own(peer.scope.as_str());
    DeviceInfo {
        node_id_short: short,
        device: peer.device,
        node_id: peer.node_id,
        scope,
        paired_at: peer.paired_at,
        last_seen: peer.last_seen,
        presence,
    }
}

/// What a pairing invitation tells the caller to compare, and who this
/// server is.
pub open spec fn fingerprint_hint_spec(device: Seq<char>, node_id: Seq<char>) -> Seq<char> {
    "Six words appear on BOTH screens once the device opens the link. Call pair_status to read this server's six words and compare them with the device's before calling confirm_pairing. This server is "@
        + device + " ("@ + short_id_spec(node_id) + ")."@
}

pub fn fingerprint_hint(device: &str, node_id: &str) -> (r: String)
    ensures
        r@ == fingerprint_hint_spec(device@, node_id@),
{
    let mut m = own("Six words appear on BOTH screens once the device opens the link. Call pair_status to read this server's six words and compare them with the device's before calling confirm_pairing. This server is ");
    append(&mut m, device);
    append(&mut m, " (");
    append(&mut m, short_id(node_id).as_str());
    append(&mut m, ").");
    m
}

/// Newest first.
pub open spec fn newest_first(s: Seq<PendingPair>) -> bool {
    forall|i: int, j: int| 0 <= i < j < s.len() ==> (#[trigger] s[i]).created_at >= (#[trigger] s[j]).created_at
}

/// Sort parked pairings newest first. Ties keep their order.
pub fn sort_newest_first(parked: Vec<PendingPair>) -> (r: Vec<PendingPair>)
    ensures
        r@.to_multiset() == parked@.to_multiset(),
        newest_first(r@),
{
    broadcast use vstd::seq_lib::to_multiset_insert, vstd::seq_lib::to_multiset_remove;
    let mut rest = parked;
    let ghost orig = rest@;
    let mut out: Vec<PendingPair> = Vec::new();
    let ghost mut k: int = 0;
    assert(orig.take(0) =~= Seq::<PendingPair>::empty());
    assert(rest@ =~= orig.skip(0));
    while rest.len() > 0
        invariant
            0 <= k <= orig.len(),
            rest@ == orig.skip(k),
            out@.to_multiset() == orig.take(k).to_multiset(),
            newest_first(out@),
        decreases rest.len(),
    {
        let p = rest.remove(0);
        proof {
            assert(p == orig[k]);
            assert(rest@ =~= orig.skip(k + 1));
            assert(orig.take(k + 1) =~= orig.take(k).push(p));
            vstd::seq_lib::to_multiset_build(orig.take(k), p);
        }
        let mut pos: usize = 0;
        while pos < out.len() && out[pos].created_at >= p.created_at
            invariant
                pos <= out.len(),
                forall|m: int| 0 <= m < pos ==> (#[trigger] out@[m]).created_at >= p.created_at,
            decreases out.len() - pos,
        {
            pos += 1;
        }
        let ghost before = out@;
        proof {
            if pos < out.len() {
                assert(out@[pos as int].created_at < p.created_at);
            }
        }
        out.insert(pos, p);
        proof {
            assert(out@ =~= before.insert(pos as int, p));
            vstd::seq_lib::to_multiset_insert(before, pos as int, p);
            assert forall|i: int, j: int| 0 <= i < j < out@.len() implies (#[trigger] out@[i]).created_at >= (#[trigger] out@[j]).created_at by {
                if j < pos {
                    assert(out@[i] == before[i] && out@[j] == before[j]);
                } else if j == pos {
                    assert(out@[i] == before[i]);
                } else if i < pos {
                    assert(out@[i] == before[i] && out@[j] == before[j - 1]);
                    if pos < before.len() {
                        assert(before[pos as int].created_at < p.created_at);
                        assert(before[i].created_at >= before[pos as int].created_at || i == pos);
                    }
                } else if i == pos {
                    assert(out@[j] == before[j - 1]);
                    assert(before[pos as int].created_at < p.created_at);
                    assert(before[pos as int].created_at >= before[j - 1].created_at || j - 1 == pos);
                } else {
                    assert(out@[i] == before[i - 1] && out@[j] == before[j - 1]);
                }
            }
            k = k + 1;
        }
    }
    proof {
        assert(orig.take(k) =~= orig);
    }
    out
}

/// `r` is `s`, each pairing as the status reports it.
pub open spec fn reported(r: Seq<PendingPairing>, s: Seq<PendingPair>) -> bool {
    &&& r.len() == s.len()
    &&& forall|i: int| 0 <= i < r.len() ==> {
        let (q, p) = (#[trigger] r[i], s[i]);
        &&& q.node_id == p.node_id
        &&& q.node_id_short@ == short_id_spec(p.node_id@)
        &&& q.device == p.device
        &&& q.fingerprint == p.fingerprint
        &&& q.role == p.role
        &&& q.created_at == p.created_at
    }
}

/// The pairings waiting for a fingerprint comparison, newest first.
pub fn pair_status(parked: Vec<PendingPair>) -> (r: Vec<PendingPairing>)
    ensures
        exists|s: Seq<PendingPair>| #[trigger] reported(r@, s) && s.to_multiset() == parked@.to_multiset() && newest_first(s),
{
    let sorted = sort_newest_first(parked);
    let ghost s = sorted@;
    let mut rest = sorted;
    let mut out: Vec<PendingPairing> = Vec::new();
    let ghost mut k: int = 0;
    assert(rest@ =~= s.skip(0));
    while rest.len() > 0
        invariant
            0 <= k <= s.len(),
            rest@ == s.skip(k),
            reported(out@, s.take(k)),
        decreases rest.len(),
    {
        let p = rest.remove(0);
        proof {
            assert(p == s[k]);
            assert(rest@ =~= s.skip(k + 1));
        }
        let q = PendingPairing::from_pending(p);
        out.push(q);
        proof {
            assert forall|i: int| 0 <= i < out@.len() implies {
                let (q, p) = (#[trigger] out@[i], s.take(k + 1)[i]);
                &&& q.node_id == p.node_id
                &&& q.node_id_short@ == short_id_spec(p.node_id@)
                &&& q.device == p.device
                &&& q.fingerprint == p.fingerprint
                &&& q.role == p.role
                &&& q.created_at == p.created_at
            } by {
                if i < k {
                    assert(s.take(k + 1)[i] == s.take(k)[i]);
                }
            }
            k = k + 1;
        }
    }
    proof {
        assert(s.take(k) =~= s);
    }
    out
}

/// Which pairing `confirm_pairing` acts on, and the grant it names. The
/// scope is checked FIRST, so a typo is refused before a parked pairing is
/// consumed.
pub fn confirm_target(parked: &Vec<PendingPair>, node_id: Option<&str>, scope: Option<&str>) -> (r: Result<(String, Option<Scope>), String>)
    ensures
        match crate::args::validate_optional_scope_spec(scope) {
            Err(e) => r matches Err(m) && m@ == e,
            Ok(granted) => match crate::devices::resolve_pending_spec(parked@, node_id) {
                Err(e) => r matches Err(m) && m@ == e,
                Ok(p) => r matches Ok((n, g)) && n@ == p.node_id@ && g == granted,
            },
        },
{
    let granted = match crate::args::validate_optional_scope(scope) {
        Ok(g) => g,
        Err(e) => {
            return Err(e);
        },
    };
    match crate::devices::resolve_pending(parked.as_slice(), node_id) {
        Ok(p) => Ok((own(p.node_id.as_str()), granted)),
        Err(e) => Err(e),
    }
}

/// What `confirm_pairing` reports: a rejected pairing writes nothing, an
/// accepted one reports the peer as it now stands, with its grant.
pub fn pairing_outcome(accept: bool, pending: PendingPair, confirmed: Option<Peer>) -> (o: PairingOutcome)
    requires
        accept ==> confirmed is Some,
    ensures
        !accept ==> o == (PairingOutcome { paired: false, device: pending.device, node_id: pending.node_id, scope: None }),
        accept ==> o.paired && o.device == confirmed->Some_0.device && o.node_id == confirmed->Some_0.node_id
            && (o.scope matches Some(s) && s@ == crate::peers::scope_text(confirmed->Some_0.scope)),
{
    if !accept {
        return PairingOutcome { paired: false, device: pending.device, node_id: pending.node_id, scope: None };
    }
    match confirmed {
        Some(peer) => {
            let scope = own(peer.scope.as_str());
            PairingOutcome { paired: true, device: peer.device, node_id: peer.node_id, scope: Some(scope) }
        },
        None => PairingOutcome { paired: false, device: pending.device, node_id: pending.node_id, scope: None },
    }
}

// ── The status report ───────────────────────────────────────────────────────

/// `q` is `r` as the status lists it.
pub open spec fn lists_record(r: Record, q: QueuedDelivery) -> bool {
    &&& q.id == r.id
    &&& q.device == r.device
    &&& q.node_id == r.peer
    &&& q.node_id_short@ == short_id_spec(r.peer@)
    &&& q.name == r.name
    &&& q.size == r.size
    &&& q.hash == r.hash
    &&& q.source == r.source
    &&& q.enqueued_at == r.enqueued_at
    &&& q.expires_at == r.expires_at
    &&& q.attempts == r.attempts
    &&& q.last_attempt_at == r.last_attempt_at
    &&& q.last_error == r.last_error
}

/// `s` is `o` as the status lists it.
pub open spec fn lists_offer(o: OfferInfo, s: OfferSummary) -> bool {
    s.name == o.name && s.size == o.size && s.link == o.link && s.expires_at == o.expires_at
        && s.fetches == o.fetches && s.hash == o.id
}

/// What a status report is assembled from, each read once. `offers` is
/// the booted node's live offers, and `None` when nothing has booted: the
/// report never boots the node to answer.
pub struct StatusInputs {
    pub node_id: String,
    pub device: String,
    pub identity_dir: String,
    pub state_dir: String,
    pub offers: Option<Vec<OfferInfo>>,
    pub last_boot_error: Option<String>,
    pub uptime_secs: u64,
    pub paired_devices: usize,
    pub received: Vec<ReceivedArtifact>,
    pub received_total: u64,
    pub records: Vec<Record>,
    pub unaccounted: Vec<String>,
    pub abandoned: Vec<AbandonedDelivery>,
    pub abandoned_total: u64,
    pub drain_running: bool,
    pub peer_load_error: Option<String>,
    pub spool_fault: Option<String>,
    pub roots: Vec<String>,
}

fn list_offers(offers: Vec<OfferInfo>) -> (r: Vec<OfferSummary>)
    ensures
        r.len() == offers.len(),
        forall|k: int| 0 <= k < r.len() ==> lists_offer(offers@[k], #[trigger] r@[k]),
{
    let mut out: Vec<OfferSummary> = Vec::new();
    let mut rest = offers;
    let ghost orig = rest@;
    let ghost mut k: int = 0;
    while rest.len() > 0
        invariant
            0 <= k <= orig.len(),
            rest@ == orig.skip(k),
            out.len() == k,
            forall|j: int| 0 <= j < out.len() ==> lists_offer(orig[j], #[trigger] out@[j]),
        decreases rest.len(),
    {
        let o = rest.remove(0);
        proof {
            assert(o == orig[k]);
            assert(rest@ =~= orig.skip(k + 1));
        }
        out.push(OfferSummary::from_offer(o));
        proof {
            k = k + 1;
        }
    }
    out
}

fn list_records(records: &Vec<Record>) -> (r: Vec<QueuedDelivery>)
    ensures
        r.len() == records.len(),
        forall|k: int| 0 <= k < r.len() ==> lists_record(records@[k], #[trigger] r@[k]),
{
    let mut out: Vec<QueuedDelivery> = Vec::new();
    let mut i: usize = 0;
    while i < records.len()
        invariant
            i <= records.len(),
            out.len() == i,
            forall|j: int| 0 <= j < out.len() ==> lists_record(records@[j], #[trigger] out@[j]),
        decreases records.len() - i,
    {
        out.push(QueuedDelivery::from_record(records[i].clone()));
        i += 1;
    }
    out
}

/// The status report. The queue's list, count and byte totals come from the
/// one read of the spool it is given, so the count and the sums always match
/// the list beside them; a drain is reported running only on a booted node.
pub fn assemble_status(i: StatusInputs) -> (s: ServerStatus)
    requires
        crate::outbox::total_size(i.records@) <= u64::MAX,
    ensures
        s.booted == (i.offers is Some),
        s.draining == (s.booted && i.drain_running),
        !s.booted ==> !s.draining,
        s.boot_error == (if s.booted { None } else { i.last_boot_error }),
        s.queued.len() == i.records.len(),
        forall|k: int| 0 <= k < s.queued.len() ==> lists_record(i.records@[k], #[trigger] s.queued@[k]),
        s.queued_total == s.queued.len(),
        s.queued_bytes == crate::outbox::total_size(i.records@),
        s.retained_bytes == retained_size(i.records@),
        match i.offers {
            Some(os) => s.active_offers.len() == os.len()
                && forall|k: int| 0 <= k < os.len() ==> lists_offer(os@[k], #[trigger] s.active_offers@[k]),
            None => s.active_offers.len() == 0,
        },
        s.node_id == i.node_id,
        s.node_id_short@ == short_id_spec(i.node_id@),
        s.device == i.device,
        s.identity_dir == i.identity_dir,
        s.state_dir == i.state_dir,
        s.uptime_secs == i.uptime_secs,
        s.paired_devices == i.paired_devices,
        s.received_artifacts == i.received,
        s.received_total == i.received_total,
        s.queue_unreadable == i.unaccounted,
        s.abandoned == i.abandoned,
        s.abandoned_total == i.abandoned_total,
        s.roots == i.roots,
        match i.last_boot_error {
            Some(e) => s.queue_blocked_reason == Some(e),
            None => match i.peer_load_error {
                Some(e) => s.queue_blocked_reason matches Some(m) && m@ == peer_list_blocked_spec(e@),
                None => s.queue_blocked_reason == i.spool_fault,
            },
        },
{
    let booted = i.offers.is_some();
    let active_offers = match i.offers {
        Some(os) => list_offers(os),
        None => Vec::new(),
    };
    let queued = list_records(&i.records);
    let (queued_bytes, retained_bytes) = queue_totals(&i.records);
    let queued_total = queued.len();
    let boot_error = if booted { None } else { copy_text_opt(&i.last_boot_error) };
    let blocked = blocked_by(i.last_boot_error, i.peer_load_error, i.spool_fault);
    ServerStatus {
        node_id_short: short_id(i.node_id.as_str()),
        node_id: i.node_id,
        device: i.device,
        identity_dir: i.identity_dir,
        state_dir: i.state_dir,
        booted,
        boot_error,
        uptime_secs: i.uptime_secs,
        paired_devices: i.paired_devices,
        active_offers,
        received_artifacts: i.received,
        received_total: i.received_total,
        queued,
        queued_total,
        queued_bytes,
        retained_bytes,
        queue_unreadable: i.unaccounted,
        abandoned: i.abandoned,
        abandoned_total: i.abandoned_total,
        draining: booted && i.drain_running,
        queue_blocked_reason: blocked,
        roots: i.roots,
    }
}

fn copy_text_opt(o: &Option<String>) -> (r: Option<String>)
    ensures
        r == *o,
{
    match o {
        Some(s) => Some(s.clone()),
        None => None,
    }
}

// ── The queue's standing ────────────────────────────────────────────────────

/// Why the queue can neither take nor move a send: a failed boot, then a
/// peer list that would not load, then a spool fault.
pub fn blocked_by(boot_error: Option<String>, peer_load_error: Option<String>, spool_fault: Option<String>) -> (r: Option<String>)
    ensures
        match boot_error {
            Some(e) => r == Some(e),
            None => match peer_load_error {
                Some(e) => r matches Some(m) && m@ == peer_list_blocked_spec(e@),
                None => r == spool_fault,
            },
        },
{
    match boot_error {
        Some(e) => Some(e),
        None => match peer_load_error {
            Some(e) => Some(peer_list_blocked(e.as_str())),
            None => spool_fault,
        },
    }
}


// ── Configuration ──────────────────────────────────────────────────────────

/// `s` split at every `c`, like `str::split`: one more piece than there are
/// separators, empty pieces included.
pub open spec fn split_at_char(s: Seq<char>, c: char) -> Seq<Seq<char>>
    decreases s.len(),
{
    if s.len() == 0 {
        seq![Seq::empty()]
    } else {
        let r = split_at_char(s.drop_last(), c);
        if s.last() == c {
            r.push(Seq::empty())
        } else {
            r.update(r.len() - 1, r.last().push(s.last()))
        }
    }
}

proof fn lemma_split_nonempty(s: Seq<char>, c: char)
    ensures
        split_at_char(s, c).len() >= 1,
    decreases s.len(),
{
    if s.len() > 0 {
        lemma_split_nonempty(s.drop_last(), c);
    }
}

/// The pieces, trimmed, with the empty ones dropped.
pub open spec fn trimmed_pieces(pieces: Seq<Seq<char>>) -> Seq<Seq<char>>
    decreases pieces.len(),
{
    if pieces.len() == 0 {
        Seq::empty()
    } else {
        let r = trimmed_pieces(pieces.drop_last());
        let t = trim(pieces.last());
        if t.len() == 0 { r } else { r.push(t) }
    }
}

/// The roots a `VLERV_MCP_ROOTS` value names: a colon-separated list,
/// trimmed, empties dropped; the working directory when it names none or
/// is unset. Never empty: a server that can send nothing is a confusing
/// failure, not a safe default.
pub open spec fn roots_spec(raw: Option<Seq<char>>, cwd: Seq<char>) -> Seq<Seq<char>> {
    match raw {
        None => seq![cwd],
        Some(r) => {
            let roots = trimmed_pieces(split_at_char(r, ':'));
            if roots.len() == 0 { seq![cwd] } else { roots }
        },
    }
}

fn split_colons(s: &str) -> (r: Vec<String>)
    ensures
        views(r@) == split_at_char(s@, ':'),
{
    let v = crate::text::chars_of(s);
    let mut out: Vec<String> = Vec::new();
    let mut cur = String::new();
    let mut i: usize = 0;
    while i < v.len()
        invariant
            i <= v.len(),
            v@ == s@,
            views(out@).push(cur@) == split_at_char(v@.take(i as int), ':'),
        decreases v.len() - i,
    {
        proof {
            assert(v@.take(i + 1).drop_last() =~= v@.take(i as int));
            assert(v@.take(i + 1).last() == v@[i as int]);
            lemma_split_nonempty(v@.take(i as int), ':');
        }
        let ghost before = views(out@).push(cur@);
        if v[i] == ':' {
            let mut done = String::new();
            std::mem::swap(&mut done, &mut cur);
            out.push(done);
            proof {
                assert(views(out@).push(cur@) =~= before.push(Seq::empty()));
            }
        } else {
            push_char(&mut cur, v[i]);
            proof {
                assert(views(out@).push(cur@) =~= before.update(before.len() - 1, before.last().push(v@[i as int])));
            }
        }
        i += 1;
    }
    assert(v@.take(v.len() as int) =~= v@);
    let ghost before = views(out@);
    out.push(cur);
    assert(views(out@) =~= before.push(out@.last()@));
    out
}

pub fn configured_roots(raw: Option<&str>, cwd: &str) -> (r: Vec<String>)
    ensures
        views(r@) == roots_spec(match raw { Some(x) => Some(x@), None => None }, cwd@),
        r@.len() >= 1,
{
    let raw = match raw {
        None => {
            let mut v: Vec<String> = Vec::new();
            v.push(own(cwd));
            assert(views(v@) =~= seq![cwd@]);
            return v;
        },
        Some(x) => x,
    };
    let pieces = split_colons(raw);
    let mut roots: Vec<String> = Vec::new();
    let mut i: usize = 0;
    while i < pieces.len()
        invariant
            i <= pieces.len(),
            views(roots@) == trimmed_pieces(views(pieces@).take(i as int)),
        decreases pieces.len() - i,
    {
        proof {
            assert(views(pieces@).take(i + 1).drop_last() =~= views(pieces@).take(i as int));
            assert(views(pieces@).take(i + 1).last() == pieces@[i as int]@);
        }
        let t = crate::text::trimmed(pieces[i].as_str());
        let tv = crate::text::chars_of(t.as_str());
        if tv.len() > 0 {
            let ghost before = views(roots@);
            roots.push(t);
            proof {
                assert(views(roots@) =~= before.push(trim(pieces@[i as int]@)));
            }
        }
        i += 1;
    }
    assert(views(pieces@).take(pieces.len() as int) =~= views(pieces@));
    if roots.len() == 0 {
        roots.push(own(cwd));
        assert(views(roots@) =~= seq![cwd@]);
    }
    roots
}

/// Where this server keeps its identity, peer store and blobs:
/// `VLERV_MCP_STATE_DIR` outright; otherwise `mcp` under `VLERV_STATE_DIR`,
/// or under `Vlerv` in the platform's config directory (the working
/// directory when there is none). Its OWN subdirectory: the desktop app's
/// state is a different peer with a different key.
pub open spec fn state_dir_spec(mcp_dir: Option<Seq<char>>, shared_dir: Option<Seq<char>>, config_dir: Option<Seq<char>>) -> Seq<char> {
    match mcp_dir {
        Some(d) => d,
        None => {
            let base = match shared_dir {
                Some(d) => d,
                None => crate::paths::join(match config_dir { Some(c) => c, None => "."@ }, "Vlerv"@),
            };
            crate::paths::join(base, "mcp"@)
        },
    }
}

pub fn state_dir(mcp_dir: Option<String>, shared_dir: Option<String>, config_dir: Option<String>) -> (r: String)
    ensures
        r@ == state_dir_spec(
            match mcp_dir { Some(x) => Some(x@), None => None },
            match shared_dir { Some(x) => Some(x@), None => None },
            match config_dir { Some(x) => Some(x@), None => None },
        ),
{
    match mcp_dir {
        Some(d) => d,
        None => {
            let base = match shared_dir {
                Some(d) => d,
                None => match config_dir {
                    Some(c) => crate::paths::join_path(c.as_str(), "Vlerv"),
                    None => crate::paths::join_path(".", "Vlerv"),
                },
            };
            crate::paths::join_path(base.as_str(), "mcp")
        },
    }
}


// ── A direct send ───────────────────────────────────────────────────────────

/// What a send does once its dial answered.
#[derive(Debug, PartialEq, Eq)]
pub enum SendStep {
    /// The device did not answer: the send is queued.
    Asleep(String),
    /// The device answered and refused, or never granted control: the call
    /// fails with this sentence and nothing is queued.
    Refused(String),
    /// The cached session's grant may be stale: dial once more.
    Redial,
    Push,
}

/// The decision after a dial. Only an unreachable device leads to the
/// queue; a grant this build cannot read counts as no control, because a
/// live push is about to happen; a session whose grant lacks control is
/// re-handshaken once before the refusal, since the human may have widened
/// it between two calls.
pub fn after_session(peer: &Peer, dialed: Result<String, ConnectError>, rechecked: bool, this_device: &str) -> (r: SendStep)
    ensures
        match dialed {
            Err(ConnectError::Unreachable(w)) => r == SendStep::Asleep(w),
            Err(cause) => r matches SendStep::Refused(m) && m@ == not_reachable_spec(*peer, cause),
            Ok(scope) => if scope_of(scope@) == Some(Scope::Control) {
                r is Push
            } else if !rechecked {
                r is Redial
            } else {
                r matches SendStep::Refused(m) && m@ == needs_control_spec(*peer, scope@, this_device@)
            },
        },
{
    match dialed {
        Err(ConnectError::Unreachable(w)) => SendStep::Asleep(w),
        Err(cause) => SendStep::Refused(not_reachable(peer, &cause)),
        Ok(scope) => {
            let control = match grants_control(scope.as_str()) {
                Some(c) => c,
                None => false,
            };
            if control {
                SendStep::Push
            } else if !rechecked {
                SendStep::Redial
            } else {
                SendStep::Refused(needs_control(peer, scope.as_str(), this_device))
            }
        },
    }
}

/// How one push attempt settled.
#[derive(Debug, PartialEq, Eq)]
pub enum Attempt {
    Landed(crate::scope::PushedArtifact),
    Asleep(String),
    /// The session died under the push: worth one fresh session.
    SessionDied(String),
}

/// A push's result as an attempt. A refusal from either side is an answer
/// about these bytes and this peer, so it fails the call instead of being
/// retried for a week.
pub fn after_push(r: Result<crate::scope::PushedArtifact, crate::scope::PushFailure>) -> (a: Result<Attempt, String>)
    ensures
        match r {
            Ok(p) => a == Ok::<Attempt, String>(Attempt::Landed(p)),
            Err(crate::scope::PushFailure::Transport(w)) => a == Ok::<Attempt, String>(Attempt::SessionDied(w)),
            Err(crate::scope::PushFailure::Local(m)) => a == Err::<Attempt, String>(m),
            Err(crate::scope::PushFailure::Denied(m)) => a == Err::<Attempt, String>(m),
        },
{
    match r {
        Ok(p) => Ok(Attempt::Landed(p)),
        Err(crate::scope::PushFailure::Transport(w)) => Ok(Attempt::SessionDied(w)),
        Err(crate::scope::PushFailure::Local(m)) => Err(m),
        Err(crate::scope::PushFailure::Denied(m)) => Err(m),
    }
}

/// The answer to a send that landed: the device it reached, and the name
/// and size the host measured.
pub fn delivered(peer: Peer, pushed: crate::scope::PushedArtifact) -> (d: Delivery)
    ensures
        d == (Delivery::Delivered {
            device: peer.device,
            node_id: peer.node_id,
            name: pushed.name,
            size: pushed.size,
            hash: pushed.hash,
        }),
{
    Delivery::Delivered { device: peer.device, node_id: peer.node_id, name: pushed.name, size: pushed.size, hash: pushed.hash }
}

/// The link `beam_artifact` reports for an offer.
pub fn beam_link(info: OfferInfo) -> (l: BeamLink)
    ensures
        l == (BeamLink { link: info.link, ticket: info.ticket, name: info.name, size: info.size, expires_at: info.expires_at, hash: info.id }),
{
    BeamLink { link: info.link, ticket: info.ticket, name: info.name, size: info.size, expires_at: info.expires_at, hash: info.id }
}

} // verus!
