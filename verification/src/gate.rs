//! The blob request gate: every request the blob provider receives is
//! answered here. A beam offer is a capability held by whoever has the
//! ticket; a scope grant is peer-locked, so this module also keeps which peer
//! each open connection belongs to. Either admits a plain blob request;
//! every other request shape is refused.

use vstd::prelude::*;
use crate::beam::{distinct_ids, offer_index, Offers};
use crate::grants::Grants;
use crate::text::own;

verus! {

/// What the blob provider reports.
pub enum ProviderEvent {
    /// A connection opened; the provider names the peer when it knows it.
    Connected { connection: u64, peer: Option<String> },
    Closed { connection: u64 },
    /// A request for one blob. `is_blob` is false for ranged requests.
    Get { connection: u64, hash: String, is_blob: bool },
    /// A multi-blob, push or observe request: never served.
    Other,
}

/// The answer to one provider event.
pub enum GateReply {
    /// Nothing to answer.
    Nothing,
    /// Admit or refuse the request. `changed` means a fetch was admitted,
    /// so whoever lists the offers is told to look again.
    Answer { admitted: bool, changed: bool },
}

/// The connection → peer map, for the life of each connection.
pub struct Gate {
    peers: Vec<(u64, String)>,
}

pub open spec fn conn_index(ps: Seq<(u64, String)>, c: u64) -> int
    decreases ps.len(),
{
    if ps.len() == 0 {
        -1
    } else if ps.last().0 == c {
        ps.len() - 1
    } else {
        conn_index(ps.drop_last(), c)
    }
}

/// The peer a connection belongs to, if the provider named one.
pub open spec fn conn_peer(ps: Seq<(u64, String)>, c: u64) -> Option<Seq<char>> {
    let i = conn_index(ps, c);
    if i >= 0 {
        Some(ps[i].1@)
    } else {
        None
    }
}

proof fn lemma_conn_index(ps: Seq<(u64, String)>, c: u64)
    ensures
        -1 <= conn_index(ps, c) < ps.len(),
        conn_index(ps, c) >= 0 ==> ps[conn_index(ps, c)].0 == c,
        conn_index(ps, c) == -1 ==> forall|k: int| 0 <= k < ps.len() ==> (#[trigger] ps[k]).0 != c,
    decreases ps.len(),
{
    if ps.len() > 0 && ps.last().0 != c {
        lemma_conn_index(ps.drop_last(), c);
        assert forall|k: int| 0 <= k < ps.len() - 1 implies ps[k] == ps.drop_last()[k] by {}
    }
}

/// The map with `c` gone.
pub open spec fn without_conn(ps: Seq<(u64, String)>, c: u64) -> Seq<(u64, String)>
    decreases ps.len(),
{
    if ps.len() == 0 {
        ps
    } else if ps.last().0 == c {
        without_conn(ps.drop_last(), c)
    } else {
        without_conn(ps.drop_last(), c).push(ps.last())
    }
}

proof fn lemma_without_conn(ps: Seq<(u64, String)>, c: u64, d: u64)
    ensures
        conn_peer(without_conn(ps, c), d) == if d == c { None } else { conn_peer(ps, d) },
    decreases ps.len(),
{
    if ps.len() > 0 {
        let dl = ps.drop_last();
        lemma_without_conn(dl, c, d);
        let w = without_conn(dl, c);
        lemma_push_conn(dl, ps.last(), d);
        assert(dl.push(ps.last()) =~= ps);
        if ps.last().0 != c {
            lemma_push_conn(w, ps.last(), d);
        }
    } else {
        assert(without_conn(ps, c) == ps);
    }
}

proof fn lemma_push_conn(ps: Seq<(u64, String)>, e: (u64, String), d: u64)
    ensures
        conn_peer(ps.push(e), d) == if e.0 == d { Some(e.1@) } else { conn_peer(ps, d) },
{
    let q = ps.push(e);
    assert(q.drop_last() =~= ps);
    assert(q.last() == e);
    lemma_conn_index(ps, d);
    if e.0 != d {
        let i = conn_index(ps, d);
        if i >= 0 {
            assert(q[i] == ps[i]);
        }
    }
}

/// Whether an offer admits this request at `now`: a plain blob request
/// for an active, unexpired offer.
pub open spec fn offer_admits(o: Offers, hash: Seq<char>, is_blob: bool, now: u64) -> bool {
    is_blob && offer_index(o.entries(), hash) >= 0 && o.entries()[offer_index(o.entries(), hash)].info.expires_at > now
}

impl Gate {
    pub closed spec fn conns(&self) -> Seq<(u64, String)> {
        self.peers@
    }

    /// The peer a connection belongs to.
    pub open spec fn peer(&self, c: u64) -> Option<Seq<char>> {
        conn_peer(self.conns(), c)
    }

    pub fn new() -> (g: Gate)
        ensures
            forall|c: u64| #[trigger] g.peer(c) is None,
    {
        Gate { peers: Vec::new() }
    }

    fn lookup(&self, c: u64) -> (r: Option<String>)
        ensures
            match r {
                Some(p) => self.peer(c) == Some(p@),
                None => self.peer(c) is None,
            },
    {
        proof {
            lemma_conn_index(self.peers@, c);
        }
        let mut k = self.peers.len();
        assert(self.peers@.subrange(0, k as int) =~= self.peers@);
        while k > 0
            invariant
                k <= self.peers.len(),
                conn_index(self.peers@, c) == conn_index(self.peers@.subrange(0, k as int), c),
            decreases k,
        {
            if self.peers[k - 1].0 == c {
                return Some(own(self.peers[k - 1].1.as_str()));
            }
            assert(self.peers@.subrange(0, k as int).drop_last() =~= self.peers@.subrange(0, k - 1));
            k -= 1;
        }
        None
    }

    /// Answer one provider event. A connection's peer is remembered while it
    /// is open; a plain blob request is admitted by an offer (which counts
    /// the fetch) or, failing that, by a grant to the connection's peer;
    /// every other request shape is refused.
    pub fn on_event(&mut self, event: ProviderEvent, offers: &mut Offers, grants: &Grants, now: u64) -> (r: GateReply)
        requires
            distinct_ids(old(offers).entries()),
            forall|k: int| 0 <= k < old(offers).entries().len() ==> (#[trigger] old(offers).entries()[k]).info.fetches < u64::MAX,
            grants.wf(),
        ensures
            distinct_ids(final(offers).entries()),
            match event {
                ProviderEvent::Connected { connection, peer } => {
                    &&& r is Nothing
                    &&& final(offers).entries() == old(offers).entries()
                    &&& forall|c: u64| #[trigger] final(self).peer(c) == if c == connection {
                        match peer { Some(p) => Some(p@), None => old(self).peer(c) }
                    } else {
                        old(self).peer(c)
                    }
                },
                ProviderEvent::Closed { connection } => {
                    &&& r is Nothing
                    &&& final(offers).entries() == old(offers).entries()
                    &&& forall|c: u64| #[trigger] final(self).peer(c) == if c == connection { None } else { old(self).peer(c) }
                },
                ProviderEvent::Get { connection, hash, is_blob } => {
                    let by_offer = offer_admits(*old(offers), hash@, is_blob, now);
                    let by_grant = is_blob && match old(self).peer(connection) {
                        Some(p) => grants.clocks().dom().contains((hash@, p)) && grants.clocks()[(hash@, p)] > now,
                        None => false,
                    };
                    &&& r == (GateReply::Answer { admitted: by_offer || by_grant, changed: by_offer || by_grant })
                    &&& final(self).conns() == old(self).conns()
                    &&& !by_offer ==> final(offers).entries() == old(offers).entries()
                    &&& by_offer ==> {
                        let i = offer_index(old(offers).entries(), hash@);
                        let e = old(offers).entries()[i];
                        final(offers).entries() == old(offers).entries().update(i, crate::beam::OfferEntry {
                            info: crate::beam::OfferInfo { fetches: (e.info.fetches + 1) as u64, ..e.info },
                            ..e
                        })
                    }
                },
                ProviderEvent::Other => {
                    &&& r == (GateReply::Answer { admitted: false, changed: false })
                    &&& final(self).conns() == old(self).conns()
                    &&& final(offers).entries() == old(offers).entries()
                },
            },
    {
        match event {
            ProviderEvent::Connected { connection, peer } => {
                match peer {
                    Some(p) => {
                        let ghost before = self.peers@;
                        let ghost pv = p@;
                        self.peers.push((connection, p));
                        proof {
                            assert(self.peers@ =~= before.push(self.peers@.last()));
                            assert forall|c: u64| #[trigger] conn_peer(self.peers@, c) == if c == connection { Some(pv) } else { conn_peer(before, c) } by {
                                lemma_push_conn(before, self.peers@.last(), c);
                            }
                        }
                    },
                    None => {},
                }
                GateReply::Nothing
            },
            ProviderEvent::Closed { connection } => {
                let ghost orig = self.peers@;
                let mut rest: Vec<(u64, String)> = Vec::new();
                std::mem::swap(&mut rest, &mut self.peers);
                let ghost mut k: int = 0;
                assert(orig.take(0) =~= Seq::<(u64, String)>::empty());
                assert(rest@ =~= orig.skip(0));
                while rest.len() > 0
                    invariant
                        0 <= k <= orig.len(),
                        rest@ == orig.skip(k),
                        self.peers@ == without_conn(orig.take(k), connection),
                    decreases rest.len(),
                {
                    let e = rest.remove(0);
                    proof {
                        assert(e == orig[k]);
                        assert(orig.take(k + 1).drop_last() =~= orig.take(k));
                        assert(orig.take(k + 1).last() == orig[k]);
                        assert(rest@ =~= orig.skip(k + 1));
                    }
                    if e.0 != connection {
                        self.peers.push(e);
                    }
                    proof {
                        k = k + 1;
                    }
                }
                proof {
                    assert(orig.take(k) =~= orig);
                    assert forall|c: u64| #[trigger] conn_peer(self.peers@, c) == if c == connection { None } else { conn_peer(orig, c) } by {
                        lemma_without_conn(orig, connection, c);
                    }
                }
                GateReply::Nothing
            },
            ProviderEvent::Get { connection, hash, is_blob } => {
                if offers.count_fetch(hash.as_str(), is_blob, now) {
                    GateReply::Answer { admitted: true, changed: true }
                } else {
                    let peer = self.lookup(connection);
                    let admitted = match &peer {
                        Some(p) => grants.allows_fetch(hash.as_str(), Some(p.as_str()), is_blob, now),
                        None => false,
                    };
                    GateReply::Answer { admitted, changed: admitted }
                }
            },
            ProviderEvent::Other => GateReply::Answer { admitted: false, changed: false },
        }
    }
}

} // verus!
