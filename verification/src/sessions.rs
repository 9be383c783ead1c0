//! The live scope sessions a host holds: who holds them, which of them
//! listen for events, and which paths each one fetched. One peer may hold
//! at most `MAX_SESSIONS_PER_PEER` of them at any moment.

use vstd::prelude::*;
use crate::order::{same_text, views};
use crate::scope::{contains_text, MAX_SESSIONS_PER_PEER};
use crate::text::own;

verus! {

/// One session as the registry sees it.
pub struct SessionEntry {
    pub id: u64,
    /// Hex node id of the peer holding it.
    pub peer: String,
    /// Whether it asked for events.
    pub subscribed: bool,
    /// Canonical paths it fetched. A file change only crosses the wire for
    /// artifacts a client actually holds.
    pub interest: Vec<String>,
}

/// How many of `s` one peer holds.
pub open spec fn peer_count(s: Seq<SessionEntry>, p: Seq<char>) -> nat
    decreases s.len(),
{
    if s.len() == 0 {
        0
    } else {
        peer_count(s.drop_last(), p) + if s.last().peer@ == p { 1nat } else { 0nat }
    }
}

/// `s` without the sessions numbered `id`.
pub open spec fn without_id(s: Seq<SessionEntry>, id: u64) -> Seq<SessionEntry>
    decreases s.len(),
{
    if s.len() == 0 {
        s
    } else if s.last().id == id {
        without_id(s.drop_last(), id)
    } else {
        without_id(s.drop_last(), id).push(s.last())
    }
}

/// `s` without the sessions `p` holds.
pub open spec fn without_peer(s: Seq<SessionEntry>, p: Seq<char>) -> Seq<SessionEntry>
    decreases s.len(),
{
    if s.len() == 0 {
        s
    } else if s.last().peer@ == p {
        without_peer(s.drop_last(), p)
    } else {
        without_peer(s.drop_last(), p).push(s.last())
    }
}

/// Does this session listen for events about `path`?
pub open spec fn listens_for(e: SessionEntry, path: Seq<char>) -> bool {
    e.subscribed && views(e.interest@).contains(path)
}

/// The sessions an event goes to, in order: every subscribed one, or only
/// those that also hold `only`.
pub open spec fn recipient_ids(s: Seq<SessionEntry>, only: Option<Seq<char>>) -> Seq<u64>
    decreases s.len(),
{
    if s.len() == 0 {
        Seq::empty()
    } else {
        let rest = recipient_ids(s.drop_last(), only);
        let e = s.last();
        let wanted = e.subscribed && match only {
            Some(p) => views(e.interest@).contains(p),
            None => true,
        };
        if wanted { rest.push(e.id) } else { rest }
    }
}

/// The peers holding the sessions that listen for `path`, in session order.
pub open spec fn holder_peers(s: Seq<SessionEntry>, path: Seq<char>) -> Seq<Seq<char>>
    decreases s.len(),
{
    if s.len() == 0 {
        Seq::empty()
    } else {
        let rest = holder_peers(s.drop_last(), path);
        if listens_for(s.last(), path) { rest.push(s.last().peer@) } else { rest }
    }
}

proof fn lemma_count_without_id(s: Seq<SessionEntry>, id: u64, p: Seq<char>)
    ensures
        peer_count(without_id(s, id), p) <= peer_count(s, p),
    decreases s.len(),
{
    if s.len() > 0 {
        lemma_count_without_id(s.drop_last(), id, p);
        let w = without_id(s.drop_last(), id);
        if s.last().id != id {
            assert(w.push(s.last()).drop_last() =~= w);
        }
    }
}

proof fn lemma_count_without_peer(s: Seq<SessionEntry>, q: Seq<char>, p: Seq<char>)
    ensures
        peer_count(without_peer(s, q), p) <= peer_count(s, p),
        q == p ==> peer_count(without_peer(s, q), p) == 0,
    decreases s.len(),
{
    if s.len() > 0 {
        lemma_count_without_peer(s.drop_last(), q, p);
        let w = without_peer(s.drop_last(), q);
        if s.last().peer@ != q {
            assert(w.push(s.last()).drop_last() =~= w);
        }
    }
}

/// Two lists whose sessions belong to the same peers, position by position,
/// count the same for every peer.
proof fn lemma_count_same_peers(a: Seq<SessionEntry>, b: Seq<SessionEntry>, p: Seq<char>)
    requires
        a.len() == b.len(),
        forall|i: int| 0 <= i < a.len() ==> (#[trigger] a[i]).peer@ == b[i].peer@,
    ensures
        peer_count(a, p) == peer_count(b, p),
    decreases a.len(),
{
    if a.len() > 0 {
        lemma_count_same_peers(a.drop_last(), b.drop_last(), p);
        assert(a.last().peer@ == b.last().peer@) by {
            assert(a[a.len() - 1].peer@ == b[a.len() - 1].peer@);
        }
    }
}

/// The registry.
pub struct Sessions {
    entries: Vec<SessionEntry>,
}

impl Sessions {
    pub closed spec fn entries(&self) -> Seq<SessionEntry> {
        self.entries@
    }

    /// No peer holds more sessions than the cap allows.
    pub open spec fn wf(&self) -> bool {
        forall|p: Seq<char>| #[trigger] peer_count(self.entries(), p) <= MAX_SESSIONS_PER_PEER
    }

    pub fn new() -> (s: Sessions)
        ensures
            s.wf(),
            s.entries().len() == 0,
    {
        Sessions { entries: Vec::new() }
    }

    /// How many sessions this peer holds.
    pub fn count_for(&self, peer: &str) -> (r: usize)
        requires
            self.wf(),
        ensures
            r == peer_count(self.entries(), peer@),
    {
        let mut n: usize = 0;
        let mut i: usize = 0;
        while i < self.entries.len()
            invariant
                i <= self.entries.len(),
                self.wf(),
                n == peer_count(self.entries@.take(i as int), peer@),
                n <= MAX_SESSIONS_PER_PEER,
            decreases self.entries.len() - i,
        {
            proof {
                assert(self.entries@.take(i + 1).drop_last() =~= self.entries@.take(i as int));
                self.lemma_prefix_count(i + 1, peer@);
                assert(peer_count(self.entries(), peer@) <= MAX_SESSIONS_PER_PEER);
            }
            if same_text(self.entries[i].peer.as_str(), peer) {
                n += 1;
            }
            i += 1;
        }
        assert(self.entries@.take(i as int) =~= self.entries@);
        n
    }

    proof fn lemma_prefix_count(&self, k: int, p: Seq<char>)
        requires
            0 <= k <= self.entries@.len(),
        ensures
            peer_count(self.entries@.take(k), p) <= peer_count(self.entries@, p),
        decreases self.entries@.len() - k,
    {
        if k < self.entries@.len() {
            self.lemma_prefix_count(k + 1, p);
            assert(self.entries@.take(k + 1).drop_last() =~= self.entries@.take(k));
        } else {
            assert(self.entries@.take(k) =~= self.entries@);
        }
    }

    /// Register a session, refusing the peer at its concurrency cap.
    pub fn register(&mut self, id: u64, peer: &str) -> (r: Result<u64, String>)
        requires
            old(self).wf(),
        ensures
            final(self).wf(),
            match r {
                Ok(x) => {
                    &&& x == id
                    &&& peer_count(old(self).entries(), peer@) < MAX_SESSIONS_PER_PEER
                    &&& final(self).entries().len() == old(self).entries().len() + 1
                    &&& final(self).entries().drop_last() == old(self).entries()
                    &&& final(self).entries().last().id == id
                    &&& final(self).entries().last().peer@ == peer@
                    &&& !final(self).entries().last().subscribed
                    &&& final(self).entries().last().interest@.len() == 0
                },
                Err(e) => {
                    &&& peer_count(old(self).entries(), peer@) >= MAX_SESSIONS_PER_PEER
                    &&& e@ == "too many open sessions for this peer"@
                    &&& final(self).entries() == old(self).entries()
                },
            },
    {
        if self.count_for(peer) >= MAX_SESSIONS_PER_PEER {
            return Err(own("too many open sessions for this peer"));
        }
        let ghost before = self.entries@;
        self.entries.push(SessionEntry { id, peer: own(peer), subscribed: false, interest: Vec::new() });
        proof {
            assert(self.entries@.drop_last() =~= before);
            assert forall|p: Seq<char>| #[trigger] peer_count(self.entries@, p) <= MAX_SESSIONS_PER_PEER by {
                assert(peer_count(before, p) <= MAX_SESSIONS_PER_PEER);
            }
        }
        Ok(id)
    }

    /// Forget one session.
    pub fn unregister(&mut self, id: u64)
        requires
            old(self).wf(),
        ensures
            final(self).wf(),
            final(self).entries() == without_id(old(self).entries(), id),
    {
        let ghost orig = self.entries@;
        assert(orig == old(self).entries());
        let mut rest: Vec<SessionEntry> = Vec::new();
        std::mem::swap(&mut rest, &mut self.entries);
        let ghost mut k: int = 0;
        assert(orig.take(0) =~= Seq::<SessionEntry>::empty());
        assert(rest@ =~= orig.skip(0));
        while rest.len() > 0
            invariant
                0 <= k <= orig.len(),
                rest@ == orig.skip(k),
                self.entries@ == without_id(orig.take(k), id),
            decreases rest.len(),
        {
            let e = rest.remove(0);
            proof {
                assert(e == orig[k]);
                assert(orig.take(k + 1).drop_last() =~= orig.take(k));
                assert(orig.take(k + 1).last() == orig[k]);
                assert(rest@ =~= orig.skip(k + 1));
            }
            if e.id != id {
                self.entries.push(e);
            }
            proof {
                k = k + 1;
            }
        }
        proof {
            assert(k == orig.len());
            assert(orig.take(k) =~= orig);
            assert forall|p: Seq<char>| #[trigger] peer_count(self.entries@, p) <= MAX_SESSIONS_PER_PEER by {
                lemma_count_without_id(orig, id, p);
                assert(peer_count(old(self).entries(), p) <= MAX_SESSIONS_PER_PEER);
            }
        }
    }

    /// Drop every session a peer holds: what revocation does to sessions
    /// that were already open when the user unpaired.
    pub fn drop_sessions_for(&mut self, peer: &str)
        requires
            old(self).wf(),
        ensures
            final(self).wf(),
            final(self).entries() == without_peer(old(self).entries(), peer@),
            peer_count(final(self).entries(), peer@) == 0,
    {
        let ghost orig = self.entries@;
        assert(orig == old(self).entries());
        let mut rest: Vec<SessionEntry> = Vec::new();
        std::mem::swap(&mut rest, &mut self.entries);
        let ghost mut k: int = 0;
        assert(orig.take(0) =~= Seq::<SessionEntry>::empty());
        assert(rest@ =~= orig.skip(0));
        while rest.len() > 0
            invariant
                0 <= k <= orig.len(),
                rest@ == orig.skip(k),
                self.entries@ == without_peer(orig.take(k), peer@),
            decreases rest.len(),
        {
            let e = rest.remove(0);
            proof {
                assert(e == orig[k]);
                assert(orig.take(k + 1).drop_last() =~= orig.take(k));
                assert(orig.take(k + 1).last() == orig[k]);
                assert(rest@ =~= orig.skip(k + 1));
            }
            if !same_text(e.peer.as_str(), peer) {
                self.entries.push(e);
            }
            proof {
                k = k + 1;
            }
        }
        proof {
            assert(orig.take(k) =~= orig);
            lemma_count_without_peer(orig, peer@, peer@);
            assert forall|p: Seq<char>| #[trigger] peer_count(self.entries@, p) <= MAX_SESSIONS_PER_PEER by {
                lemma_count_without_peer(orig, peer@, p);
                assert(peer_count(old(self).entries(), p) <= MAX_SESSIONS_PER_PEER);
            }
        }
    }

    /// Turn a session's event subscription on or off.
    pub fn set_subscribed(&mut self, id: u64, on: bool)
        requires
            old(self).wf(),
        ensures
            final(self).wf(),
            final(self).entries().len() == old(self).entries().len(),
            forall|i: int| 0 <= i < old(self).entries().len() ==> {
                let (a, b) = (#[trigger] final(self).entries()[i], old(self).entries()[i]);
                &&& a.id == b.id
                &&& a.peer == b.peer
                &&& a.interest == b.interest
                &&& a.subscribed == if b.id == id { on } else { b.subscribed }
            },
    {
        let ghost orig = self.entries@;
        assert(orig == old(self).entries());
        let mut i: usize = 0;
        while i < self.entries.len()
            invariant
                i <= self.entries.len() == orig.len(),
                forall|j: int| 0 <= j < orig.len() ==> {
                    let (a, b) = (#[trigger] self.entries@[j], orig[j]);
                    &&& a.id == b.id
                    &&& a.peer == b.peer
                    &&& a.interest == b.interest
                    &&& a.subscribed == if j < i && b.id == id { on } else { b.subscribed }
                },
            decreases self.entries.len() - i,
        {
            if self.entries[i].id == id {
                let mut e = self.entries.remove(i);
                e.subscribed = on;
                self.entries.insert(i, e);
            }
            i += 1;
        }
        proof {
            assert forall|p: Seq<char>| #[trigger] peer_count(self.entries@, p) <= MAX_SESSIONS_PER_PEER by {
                lemma_count_same_peers(self.entries@, orig, p);
                assert(peer_count(old(self).entries(), p) <= MAX_SESSIONS_PER_PEER);
            }
        }
    }

    /// Note that a session fetched `path`.
    pub fn note_interest(&mut self, id: u64, path: &str)
        requires
            old(self).wf(),
        ensures
            final(self).wf(),
            final(self).entries().len() == old(self).entries().len(),
            forall|i: int| 0 <= i < old(self).entries().len() ==> {
                let (a, b) = (#[trigger] final(self).entries()[i], old(self).entries()[i]);
                &&& a.id == b.id
                &&& a.peer == b.peer
                &&& a.subscribed == b.subscribed
                &&& views(a.interest@) == if b.id == id && !views(b.interest@).contains(path@) {
                    views(b.interest@).push(path@)
                } else {
                    views(b.interest@)
                }
            },
    {
        let ghost orig = self.entries@;
        assert(orig == old(self).entries());
        let mut i: usize = 0;
        while i < self.entries.len()
            invariant
                i <= self.entries.len() == orig.len(),
                forall|j: int| 0 <= j < orig.len() ==> {
                    let (a, b) = (#[trigger] self.entries@[j], orig[j]);
                    &&& a.id == b.id
                    &&& a.peer == b.peer
                    &&& a.subscribed == b.subscribed
                    &&& views(a.interest@) == if j < i && b.id == id && !views(b.interest@).contains(path@) {
                        views(b.interest@).push(path@)
                    } else {
                        views(b.interest@)
                    }
                },
            decreases self.entries.len() - i,
        {
            if self.entries[i].id == id && !contains_text(&self.entries[i].interest, path) {
                let mut e = self.entries.remove(i);
                let ghost before = e.interest@;
                e.interest.push(own(path));
                proof {
                    assert(views(e.interest@) =~= views(before).push(path@));
                }
                self.entries.insert(i, e);
            }
            i += 1;
        }
        proof {
            assert forall|p: Seq<char>| #[trigger] peer_count(self.entries@, p) <= MAX_SESSIONS_PER_PEER by {
                lemma_count_same_peers(self.entries@, orig, p);
                assert(peer_count(old(self).entries(), p) <= MAX_SESSIONS_PER_PEER);
            }
        }
    }

    /// Did any subscribed session fetch this path? The one question a
    /// watcher event asks before the file is re-read and re-hashed at all.
    pub fn any_session_holds(&self, path: &str) -> (b: bool)
        ensures
            b == exists|i: int| 0 <= i < self.entries().len() && listens_for(#[trigger] self.entries()[i], path@),
    {
        let mut i: usize = 0;
        while i < self.entries.len()
            invariant
                i <= self.entries.len(),
                forall|j: int| 0 <= j < i ==> !listens_for(#[trigger] self.entries@[j], path@),
            decreases self.entries.len() - i,
        {
            if self.entries[i].subscribed && contains_text(&self.entries[i].interest, path) {
                assert(listens_for(self.entries()[i as int], path@));
                return true;
            }
            i += 1;
        }
        false
    }

    /// The sessions an event goes to: the subscribed ones, and with `only`
    /// just those that fetched that path.
    pub fn recipients(&self, only: Option<&str>) -> (r: Vec<u64>)
        ensures
            r@ == recipient_ids(self.entries(), match only { Some(p) => Some(p@), None => None }),
    {
        let ghost o: Option<Seq<char>> = match only { Some(p) => Some(p@), None => None };
        let mut r: Vec<u64> = Vec::new();
        let mut i: usize = 0;
        assert(self.entries@.take(0) =~= Seq::<SessionEntry>::empty());
        while i < self.entries.len()
            invariant
                i <= self.entries.len(),
                o == (match only { Some(p) => Some(p@), None => None }),
                r@ == recipient_ids(self.entries@.take(i as int), o),
            decreases self.entries.len() - i,
        {
            proof {
                assert(self.entries@.take(i + 1).drop_last() =~= self.entries@.take(i as int));
                assert(self.entries@.take(i + 1).last() == self.entries@[i as int]);
            }
            let e = &self.entries[i];
            let wanted = e.subscribed && match only {
                Some(p) => contains_text(&e.interest, p),
                None => true,
            };
            if wanted {
                r.push(e.id);
            }
            i += 1;
        }
        assert(self.entries@.take(i as int) =~= self.entries@);
        r
    }

    /// The peer behind each session that listens for `path`, in session
    /// order: the holders a changed file is re-staged for.
    pub fn holders(&self, path: &str) -> (r: Vec<String>)
        ensures
            views(r@) == holder_peers(self.entries(), path@),
    {
        let mut r: Vec<String> = Vec::new();
        let mut i: usize = 0;
        assert(self.entries@.take(0) =~= Seq::<SessionEntry>::empty());
        assert(views(r@) =~= Seq::<Seq<char>>::empty());
        while i < self.entries.len()
            invariant
                i <= self.entries.len(),
                views(r@) == holder_peers(self.entries@.take(i as int), path@),
            decreases self.entries.len() - i,
        {
            proof {
                assert(self.entries@.take(i + 1).drop_last() =~= self.entries@.take(i as int));
                assert(self.entries@.take(i + 1).last() == self.entries@[i as int]);
            }
            let e = &self.entries[i];
            if e.subscribed && contains_text(&e.interest, path) {
                let ghost before = r@;
                r.push(own(e.peer.as_str()));
                assert(views(r@) =~= views(before).push(e.peer@));
            }
            i += 1;
        }
        assert(self.entries@.take(i as int) =~= self.entries@);
        r
    }

    /// The peer holding session `id`, if it is live.
    pub fn peer_of(&self, id: u64) -> (r: Option<String>)
        ensures
            match r {
                Some(p) => exists|i: int| 0 <= i < self.entries().len() && (#[trigger] self.entries()[i]).id == id
                    && self.entries()[i].peer@ == p@,
                None => forall|i: int| 0 <= i < self.entries().len() ==> (#[trigger] self.entries()[i]).id != id,
            },
    {
        let mut i: usize = 0;
        while i < self.entries.len()
            invariant
                i <= self.entries.len(),
                forall|j: int| 0 <= j < i ==> (#[trigger] self.entries@[j]).id != id,
            decreases self.entries.len() - i,
        {
            if self.entries[i].id == id {
                let p = own(self.entries[i].peer.as_str());
                assert(self.entries()[i as int].id == id && self.entries()[i as int].peer@ == p@);
                return Some(p);
            }
            i += 1;
        }
        None
    }
}

} // verus!
