//! Grants: peer-locked blob capabilities.
//!
//! A grant is NOT a beam ticket: possession of the content hash is not
//! enough, the fetching peer must be one that asked for the artifact
//! through a scoped session. Each peer on a hash has its own clock, so one
//! peer's traffic can never extend another peer's capability. A grant may
//! own the staging tag that pins its bytes, or own none when somebody with a
//! longer memory (a queued send) holds the pin; expiring or revoking a
//! grant hands back only a tag it owned.
//!
//! Hashes, peers and tags are held as their text (hex content hashes,
//! node ids, tag names); times are seconds on the caller's clock.

use vstd::prelude::*;
use crate::order::same_text;
use crate::scope::GRANT_TTL_SECS;
use crate::text::own;

verus! {

/// One peer's capability on one hash, and when it lapses.
pub struct PeerClock {
    pub hash: String,
    pub peer: String,
    pub expires_at: u64,
}

/// A grant's hash and the staging tag it owns, if any.
pub struct Pin {
    pub hash: String,
    pub tag: Option<String>,
}

pub open spec fn clock_key(c: PeerClock) -> (Seq<char>, Seq<char>) {
    (c.hash@, c.peer@)
}

pub open spec fn tag_view(t: Option<String>) -> Option<Seq<char>> {
    match t {
        Some(s) => Some(s@),
        None => None,
    }
}

/// The clocks as a map from (hash, peer) to expiry.
pub open spec fn clock_map(cs: Seq<PeerClock>) -> Map<(Seq<char>, Seq<char>), u64>
    decreases cs.len(),
{
    if cs.len() == 0 {
        Map::empty()
    } else {
        clock_map(cs.drop_last()).insert(clock_key(cs.last()), cs.last().expires_at)
    }
}

/// The grants as a map from hash to the tag each owns.
pub open spec fn pin_map(ps: Seq<Pin>) -> Map<Seq<char>, Option<Seq<char>>>
    decreases ps.len(),
{
    if ps.len() == 0 {
        Map::empty()
    } else {
        pin_map(ps.drop_last()).insert(ps.last().hash@, tag_view(ps.last().tag))
    }
}

pub open spec fn clocks_distinct(cs: Seq<PeerClock>) -> bool {
    forall|i: int, j: int| 0 <= i < j < cs.len() ==> clock_key(#[trigger] cs[i]) != clock_key(#[trigger] cs[j])
}

pub open spec fn pins_distinct(ps: Seq<Pin>) -> bool {
    forall|i: int, j: int| 0 <= i < j < ps.len() ==> (#[trigger] ps[i]).hash@ != (#[trigger] ps[j]).hash@
}

/// Does some peer still hold a capability on `h`?
pub open spec fn hash_held(m: Map<(Seq<char>, Seq<char>), u64>, h: Seq<char>) -> bool {
    exists|p: Seq<char>| #[trigger] m.dom().contains((h, p))
}

/// Which clocks a sweep keeps: by expiry, or all but one peer's.
pub open spec fn keeps(k: (Seq<char>, Seq<char>), expires_at: u64, now: u64, revoked: Option<Seq<char>>) -> bool {
    match revoked {
        Some(p) => k.1 != p,
        None => expires_at > now,
    }
}

/// The clocks a sweep leaves.
pub open spec fn kept_clocks(m: Map<(Seq<char>, Seq<char>), u64>, now: u64, revoked: Option<Seq<char>>) -> Map<(Seq<char>, Seq<char>), u64> {
    Map::new(|k: (Seq<char>, Seq<char>)| m.dom().contains(k) && keeps(k, m[k], now, revoked), |k: (Seq<char>, Seq<char>)| m[k])
}

/// The grants a sweep leaves: those some peer still holds.
pub open spec fn kept_pins(pins: Map<Seq<char>, Option<Seq<char>>>, clocks: Map<(Seq<char>, Seq<char>), u64>) -> Map<Seq<char>, Option<Seq<char>>> {
    Map::new(|h: Seq<char>| pins.dom().contains(h) && hash_held(clocks, h), |h: Seq<char>| pins[h])
}

/// The tags of the grants in `ps` that nobody holds anymore and that owned
/// one, in the order the grants were minted.
pub open spec fn released(ps: Seq<Pin>, clocks: Map<(Seq<char>, Seq<char>), u64>) -> Seq<Seq<char>>
    decreases ps.len(),
{
    if ps.len() == 0 {
        Seq::empty()
    } else {
        let rest = released(ps.drop_last(), clocks);
        match ps.last().tag {
            Some(t) => if hash_held(clocks, ps.last().hash@) { rest } else { rest.push(t@) },
            None => rest,
        }
    }
}

/// A grant exists exactly while some peer holds a clock on its hash.
pub open spec fn coupled(clocks: Map<(Seq<char>, Seq<char>), u64>, pins: Map<Seq<char>, Option<Seq<char>>>) -> bool {
    &&& forall|k: (Seq<char>, Seq<char>)| #[trigger] clocks.dom().contains(k) ==> pins.dom().contains(k.0)
    &&& forall|h: Seq<char>| #[trigger] pins.dom().contains(h) ==> hash_held(clocks, h)
}

proof fn lemma_grant_keeps_coupling(
    c0: Map<(Seq<char>, Seq<char>), u64>,
    p0: Map<Seq<char>, Option<Seq<char>>>,
    c1: Map<(Seq<char>, Seq<char>), u64>,
    p1: Map<Seq<char>, Option<Seq<char>>>,
    h: Seq<char>,
    p: Seq<char>,
    e: u64,
)
    requires
        coupled(c0, p0),
        c1 == c0.insert((h, p), e),
        p1.dom() == p0.dom().insert(h),
    ensures
        coupled(c1, p1),
{
    assert forall|g: Seq<char>| #[trigger] p1.dom().contains(g) implies hash_held(c1, g) by {
        if g == h {
            assert(c1.dom().contains((h, p)));
        } else {
            assert(p0.dom().contains(g));
            let q = choose|q: Seq<char>| #[trigger] c0.dom().contains((g, q));
            assert(c1.dom().contains((g, q)));
        }
    }
}

// ── Lemmas on the two maps ──────────────────────────────────────────────────

proof fn lemma_clock_in(cs: Seq<PeerClock>, i: int)
    requires
        0 <= i < cs.len(),
    ensures
        clock_map(cs).dom().contains(clock_key(cs[i])),
    decreases cs.len(),
{
    if i < cs.len() - 1 {
        lemma_clock_in(cs.drop_last(), i);
        assert(cs.drop_last()[i] == cs[i]);
    }
}

proof fn lemma_clock_witness(cs: Seq<PeerClock>, k: (Seq<char>, Seq<char>)) -> (i: int)
    requires
        clock_map(cs).dom().contains(k),
    ensures
        0 <= i < cs.len(),
        clock_key(cs[i]) == k,
    decreases cs.len(),
{
    if clock_key(cs.last()) == k {
        cs.len() - 1
    } else {
        let i = lemma_clock_witness(cs.drop_last(), k);
        assert(cs.drop_last()[i] == cs[i]);
        i
    }
}

proof fn lemma_clock_value(cs: Seq<PeerClock>, i: int)
    requires
        clocks_distinct(cs),
        0 <= i < cs.len(),
    ensures
        clock_map(cs)[clock_key(cs[i])] == cs[i].expires_at,
    decreases cs.len(),
{
    if i < cs.len() - 1 {
        let d = cs.drop_last();
        assert(clock_key(cs[i]) != clock_key(cs[cs.len() - 1]));
        assert(d[i] == cs[i]);
        assert(clocks_distinct(d)) by {
            assert forall|a: int, b: int| 0 <= a < b < d.len() implies clock_key(#[trigger] d[a]) != clock_key(#[trigger] d[b]) by {
                assert(d[a] == cs[a] && d[b] == cs[b]);
            }
        }
        lemma_clock_value(d, i);
    }
}

proof fn lemma_clock_update(cs: Seq<PeerClock>, i: int, c: PeerClock)
    requires
        clocks_distinct(cs),
        0 <= i < cs.len(),
        clock_key(c) == clock_key(cs[i]),
    ensures
        clock_map(cs.update(i, c)) =~= clock_map(cs).insert(clock_key(c), c.expires_at),
        clocks_distinct(cs.update(i, c)),
    decreases cs.len(),
{
    let u = cs.update(i, c);
    assert(clocks_distinct(u)) by {
        assert forall|a: int, b: int| 0 <= a < b < u.len() implies clock_key(#[trigger] u[a]) != clock_key(#[trigger] u[b]) by {
            assert(clock_key(u[a]) == clock_key(cs[a]));
            assert(clock_key(u[b]) == clock_key(cs[b]));
        }
    }
    if i == cs.len() - 1 {
        assert(u.drop_last() =~= cs.drop_last());
    } else {
        let d = cs.drop_last();
        assert(u.drop_last() =~= d.update(i, c));
        assert(clocks_distinct(d)) by {
            assert forall|a: int, b: int| 0 <= a < b < d.len() implies clock_key(#[trigger] d[a]) != clock_key(#[trigger] d[b]) by {
                assert(d[a] == cs[a] && d[b] == cs[b]);
            }
        }
        assert(d[i] == cs[i]);
        lemma_clock_update(d, i, c);
        assert(clock_key(cs.last()) != clock_key(cs[i]));
        assert(u.last() == cs.last());
    }
}

proof fn lemma_pin_in(ps: Seq<Pin>, i: int)
    requires
        0 <= i < ps.len(),
    ensures
        pin_map(ps).dom().contains(ps[i].hash@),
    decreases ps.len(),
{
    if i < ps.len() - 1 {
        lemma_pin_in(ps.drop_last(), i);
        assert(ps.drop_last()[i] == ps[i]);
    }
}

proof fn lemma_pin_witness(ps: Seq<Pin>, h: Seq<char>) -> (i: int)
    requires
        pin_map(ps).dom().contains(h),
    ensures
        0 <= i < ps.len(),
        ps[i].hash@ == h,
    decreases ps.len(),
{
    if ps.last().hash@ == h {
        ps.len() - 1
    } else {
        let i = lemma_pin_witness(ps.drop_last(), h);
        assert(ps.drop_last()[i] == ps[i]);
        i
    }
}

proof fn lemma_pin_value(ps: Seq<Pin>, i: int)
    requires
        pins_distinct(ps),
        0 <= i < ps.len(),
    ensures
        pin_map(ps)[ps[i].hash@] == tag_view(ps[i].tag),
    decreases ps.len(),
{
    if i < ps.len() - 1 {
        let d = ps.drop_last();
        assert(ps[i].hash@ != ps[ps.len() - 1].hash@);
        assert(d[i] == ps[i]);
        assert(pins_distinct(d)) by {
            assert forall|a: int, b: int| 0 <= a < b < d.len() implies (#[trigger] d[a]).hash@ != (#[trigger] d[b]).hash@ by {
                assert(d[a] == ps[a] && d[b] == ps[b]);
            }
        }
        lemma_pin_value(d, i);
    }
}

proof fn lemma_pin_update(ps: Seq<Pin>, i: int, p: Pin)
    requires
        pins_distinct(ps),
        0 <= i < ps.len(),
        p.hash@ == ps[i].hash@,
    ensures
        pin_map(ps.update(i, p)) =~= pin_map(ps).insert(p.hash@, tag_view(p.tag)),
        pins_distinct(ps.update(i, p)),
    decreases ps.len(),
{
    let u = ps.update(i, p);
    assert(pins_distinct(u)) by {
        assert forall|a: int, b: int| 0 <= a < b < u.len() implies (#[trigger] u[a]).hash@ != (#[trigger] u[b]).hash@ by {
            assert(u[a].hash@ == ps[a].hash@);
            assert(u[b].hash@ == ps[b].hash@);
        }
    }
    if i == ps.len() - 1 {
        assert(u.drop_last() =~= ps.drop_last());
    } else {
        let d = ps.drop_last();
        assert(u.drop_last() =~= d.update(i, p));
        assert(pins_distinct(d)) by {
            assert forall|a: int, b: int| 0 <= a < b < d.len() implies (#[trigger] d[a]).hash@ != (#[trigger] d[b]).hash@ by {
                assert(d[a] == ps[a] && d[b] == ps[b]);
            }
        }
        assert(d[i] == ps[i]);
        lemma_pin_update(d, i, p);
        assert(ps.last().hash@ != ps[i].hash@);
        assert(u.last() == ps.last());
    }
}

/// The grants a sweep dropped that owned `t`.
pub open spec fn dropped_owner(
    before: Map<Seq<char>, Option<Seq<char>>>,
    after: Map<Seq<char>, Option<Seq<char>>>,
    t: Seq<char>,
) -> bool {
    exists|h: Seq<char>| #[trigger] before.dom().contains(h) && before[h] == Some(t) && !after.dom().contains(h)
}

proof fn lemma_released_exact(ps: Seq<Pin>, c: Map<(Seq<char>, Seq<char>), u64>, t: Seq<char>)
    requires
        pins_distinct(ps),
    ensures
        released(ps, c).contains(t) <==> dropped_owner(pin_map(ps), kept_pins(pin_map(ps), c), t),
    decreases ps.len(),
{
    let m = pin_map(ps);
    let k = kept_pins(m, c);
    if ps.len() == 0 {
        assert(m =~= Map::<Seq<char>, Option<Seq<char>>>::empty());
        if dropped_owner(m, k, t) {
            let h = choose|h: Seq<char>| #[trigger] m.dom().contains(h) && m[h] == Some(t) && !k.dom().contains(h);
            assert(m.dom().contains(h));
        }
    } else {
        let d = ps.drop_last();
        let l = ps.last();
        assert(pins_distinct(d)) by {
            assert forall|a: int, b: int| 0 <= a < b < d.len() implies (#[trigger] d[a]).hash@ != (#[trigger] d[b]).hash@ by {
                assert(d[a] == ps[a] && d[b] == ps[b]);
            }
        }
        lemma_released_exact(d, c, t);
        let md = pin_map(d);
        let kd = kept_pins(md, c);
        assert(!md.dom().contains(l.hash@)) by {
            if md.dom().contains(l.hash@) {
                let w = lemma_pin_witness(d, l.hash@);
                assert(d[w] == ps[w]);
                assert(ps[w].hash@ != ps[ps.len() - 1].hash@);
            }
        }
        let lt = tag_view(l.tag);
        let fresh = !hash_held(c, l.hash@) && lt == Some(t);
        if dropped_owner(m, k, t) {
            let h = choose|h: Seq<char>| #[trigger] m.dom().contains(h) && m[h] == Some(t) && !k.dom().contains(h);
            if h != l.hash@ {
                assert(md.dom().contains(h) && md[h] == Some(t) && !kd.dom().contains(h));
                assert(dropped_owner(md, kd, t));
            } else {
                assert(fresh);
            }
        }
        if dropped_owner(md, kd, t) {
            let h = choose|h: Seq<char>| #[trigger] md.dom().contains(h) && md[h] == Some(t) && !kd.dom().contains(h);
            assert(h != l.hash@);
            assert(m.dom().contains(h) && m[h] == Some(t) && !k.dom().contains(h));
            assert(dropped_owner(m, k, t));
        }
        if fresh {
            assert(m.dom().contains(l.hash@) && m[l.hash@] == Some(t) && !k.dom().contains(l.hash@));
            assert(dropped_owner(m, k, t));
        }
        let rd = released(d, c);
        match l.tag {
            Some(s) => {
                if !hash_held(c, l.hash@) {
                    assert(released(ps, c) == rd.push(s@));
                    assert(rd.push(s@).contains(t) <==> (rd.contains(t) || s@ == t)) by {
                        if rd.push(s@).contains(t) {
                            let w = choose|w: int| 0 <= w < rd.push(s@).len() && rd.push(s@)[w] == t;
                            if w < rd.len() {
                                assert(rd[w] == t);
                            }
                        }
                        if rd.contains(t) {
                            let w = choose|w: int| 0 <= w < rd.len() && rd[w] == t;
                            assert(rd.push(s@)[w] == t);
                        }
                        if s@ == t {
                            assert(rd.push(s@)[rd.len() as int] == t);
                        }
                    }
                }
            },
            None => {},
        }
    }
}

// ── The registry ────────────────────────────────────────────────────────────

/// Blob capabilities minted for session requests and queued sends,
/// consulted by the blob request gate beside the beam offers.
pub struct Grants {
    clocks: Vec<PeerClock>,
    pins: Vec<Pin>,
}

impl Grants {
    pub closed spec fn clock_entries(&self) -> Seq<PeerClock> {
        self.clocks@
    }

    /// The grants in the order they were minted.
    pub closed spec fn pin_entries(&self) -> Seq<Pin> {
        self.pins@
    }

    /// Every (hash, peer) capability and when it lapses.
    pub open spec fn clocks(&self) -> Map<(Seq<char>, Seq<char>), u64> {
        clock_map(self.clock_entries())
    }

    /// Every grant, by hash, and the tag it owns.
    pub open spec fn pins(&self) -> Map<Seq<char>, Option<Seq<char>>> {
        pin_map(self.pin_entries())
    }

    /// One clock per (hash, peer), one grant per hash, and a grant exists
    /// exactly while some peer holds it.
    pub open spec fn wf(&self) -> bool {
        &&& clocks_distinct(self.clock_entries())
        &&& pins_distinct(self.pin_entries())
        &&& coupled(self.clocks(), self.pins())
    }

    pub fn new() -> (g: Grants)
        ensures
            g.wf(),
            g.clocks() == Map::<(Seq<char>, Seq<char>), u64>::empty(),
            g.pins() == Map::<Seq<char>, Option<Seq<char>>>::empty(),
    {
        Grants { clocks: Vec::new(), pins: Vec::new() }
    }

    /// How many grants there are.
    pub fn len(&self) -> (r: usize)
        requires
            self.wf(),
        ensures
            r == self.pins().dom().len(),
    {
        proof {
            self.lemma_pin_count(self.pins@.len() as int);
            assert(self.pins@.take(self.pins@.len() as int) =~= self.pins@);
        }
        self.pins.len()
    }

    proof fn lemma_pin_count(&self, n: int)
        requires
            pins_distinct(self.pins@),
            0 <= n <= self.pins@.len(),
        ensures
            pin_map(self.pins@.take(n)).dom().finite(),
            pin_map(self.pins@.take(n)).dom().len() == n,
        decreases n,
    {
        let t = self.pins@.take(n);
        if n > 0 {
            self.lemma_pin_count(n - 1);
            assert(t.drop_last() =~= self.pins@.take(n - 1));
            let h = t.last().hash@;
            if pin_map(t.drop_last()).dom().contains(h) {
                let j = lemma_pin_witness(t.drop_last(), h);
                assert(self.pins@[j].hash@ != self.pins@[n - 1].hash@);
            }
        } else {
            assert(pin_map(t).dom() =~= Set::<Seq<char>>::empty());
        }
    }

    fn find_clock(&self, hash: &str, peer: &str) -> (r: Option<usize>)
        requires
            clocks_distinct(self.clocks@),
        ensures
            match r {
                Some(i) => i < self.clocks@.len() && clock_key(self.clocks@[i as int]) == (hash@, peer@)
                    && self.clocks().dom().contains((hash@, peer@))
                    && self.clocks()[(hash@, peer@)] == self.clocks@[i as int].expires_at,
                None => !self.clocks().dom().contains((hash@, peer@)),
            },
    {
        let mut i: usize = 0;
        while i < self.clocks.len()
            invariant
                i <= self.clocks.len(),
                clocks_distinct(self.clocks@),
                forall|j: int| 0 <= j < i ==> clock_key(#[trigger] self.clocks@[j]) != (hash@, peer@),
            decreases self.clocks.len() - i,
        {
            if same_text(self.clocks[i].hash.as_str(), hash) && same_text(self.clocks[i].peer.as_str(), peer) {
                proof {
                    lemma_clock_in(self.clocks@, i as int);
                    lemma_clock_value(self.clocks@, i as int);
                }
                return Some(i);
            }
            i += 1;
        }
        proof {
            if self.clocks().dom().contains((hash@, peer@)) {
                let j = lemma_clock_witness(self.clocks@, (hash@, peer@));
                assert(clock_key(self.clocks@[j]) != (hash@, peer@));
            }
        }
        None
    }

    fn find_pin(&self, hash: &str) -> (r: Option<usize>)
        requires
            pins_distinct(self.pins@),
        ensures
            match r {
                Some(i) => i < self.pins@.len() && self.pins@[i as int].hash@ == hash@
                    && self.pins().dom().contains(hash@)
                    && self.pins()[hash@] == tag_view(self.pins@[i as int].tag),
                None => !self.pins().dom().contains(hash@),
            },
    {
        let mut i: usize = 0;
        while i < self.pins.len()
            invariant
                i <= self.pins.len(),
                pins_distinct(self.pins@),
                forall|j: int| 0 <= j < i ==> (#[trigger] self.pins@[j]).hash@ != hash@,
            decreases self.pins.len() - i,
        {
            if same_text(self.pins[i].hash.as_str(), hash) {
                proof {
                    lemma_pin_in(self.pins@, i as int);
                    lemma_pin_value(self.pins@, i as int);
                }
                return Some(i);
            }
            i += 1;
        }
        proof {
            if self.pins().dom().contains(hash@) {
                let j = lemma_pin_witness(self.pins@, hash@);
                assert(self.pins@[j].hash@ != hash@);
            }
        }
        None
    }

    /// Record (or refresh) a grant for content this registry staged under
    /// `tag`. Only `peer`'s clock restarts. Returns a tag the caller must
    /// delete: the fresh one, when the grant already owns a pin of its own.
    /// A grant that owns no tag ADOPTS the fresh one instead, so the bytes a
    /// peer was just granted always have a root this registry releases on
    /// its own clock.
    pub fn insert(&mut self, hash: &str, peer: &str, tag: String, now: u64) -> (r: Option<String>)
        requires
            old(self).wf(),
            now <= u64::MAX - GRANT_TTL_SECS,
        ensures
            final(self).wf(),
            final(self).clocks() == old(self).clocks().insert((hash@, peer@), (now + GRANT_TTL_SECS) as u64),
            ({
                let owned = old(self).pins().dom().contains(hash@) && old(self).pins()[hash@] is Some;
                &&& owned ==> tag_view(r) == Some(tag@) && final(self).pins() == old(self).pins()
                &&& !owned ==> r is None && final(self).pins() == old(self).pins().insert(hash@, Some(tag@))
            }),
    {
        let ghost c0 = self.clocks();
        let ghost p0 = self.pins();
        self.set_clock(hash, peer, now);
        assert(self.pins() == p0);
        let r = match self.find_pin(hash) {
            Some(i) => {
                if self.pins[i].tag.is_some() {
                    Some(tag)
                } else {
                    let pin = Pin { hash: own(hash), tag: Some(tag) };
                    proof {
                        lemma_pin_update(self.pins@, i as int, pin);
                    }
                    self.pins.set(i, pin);
                    None
                }
            },
            None => {
                self.push_pin(hash, Some(tag));
                None
            },
        };
        proof {
            assert(self.pins().dom() =~= p0.dom().insert(hash@));
            lemma_grant_keeps_coupling(c0, p0, self.clocks(), self.pins(), hash@, peer@, (now + GRANT_TTL_SECS) as u64);
        }
        r
    }

    /// `insert` for bytes this registry does not own: widen an existing
    /// grant to `peer`, or mint one that pins nothing. Only `peer`'s clock
    /// restarts, so a retry loop re-granting the same bytes never carries a
    /// capability another peer earned.
    pub fn grant_pinned(&mut self, hash: &str, peer: &str, now: u64)
        requires
            old(self).wf(),
            now <= u64::MAX - GRANT_TTL_SECS,
        ensures
            final(self).wf(),
            final(self).clocks() == old(self).clocks().insert((hash@, peer@), (now + GRANT_TTL_SECS) as u64),
            old(self).pins().dom().contains(hash@) ==> final(self).pins() == old(self).pins(),
            !old(self).pins().dom().contains(hash@) ==> final(self).pins() == old(self).pins().insert(hash@, None),
    {
        let ghost c0 = self.clocks();
        let ghost p0 = self.pins();
        self.set_clock(hash, peer, now);
        match self.find_pin(hash) {
            Some(_) => {},
            None => {
                self.push_pin(hash, None);
            },
        }
        proof {
            assert(self.pins().dom() =~= p0.dom().insert(hash@));
            lemma_grant_keeps_coupling(c0, p0, self.clocks(), self.pins(), hash@, peer@, (now + GRANT_TTL_SECS) as u64);
        }
    }

    /// Widen an EXISTING grant to one more peer, restarting that peer's
    /// hour. `false`, and nothing changes, when nothing is staged under
    /// `hash`: a grant with no bytes behind it is a dangling capability.
    pub fn add_peer(&mut self, hash: &str, peer: &str, now: u64) -> (r: bool)
        requires
            old(self).wf(),
            now <= u64::MAX - GRANT_TTL_SECS,
        ensures
            final(self).wf(),
            r == old(self).pins().dom().contains(hash@),
            final(self).pins() == old(self).pins(),
            r ==> final(self).clocks() == old(self).clocks().insert((hash@, peer@), (now + GRANT_TTL_SECS) as u64),
            !r ==> final(self).clocks() == old(self).clocks(),
    {
        match self.find_pin(hash) {
            Some(_) => {
                let ghost c0 = self.clocks();
                let ghost p0 = self.pins();
                self.set_clock(hash, peer, now);
                proof {
                    assert(self.pins().dom() =~= p0.dom().insert(hash@));
                    lemma_grant_keeps_coupling(c0, p0, self.clocks(), self.pins(), hash@, peer@, (now + GRANT_TTL_SECS) as u64);
                }
                true
            },
            None => false,
        }
    }

    /// The blob provider's question: may this connection fetch this hash? Unknown,
    /// lapsed, anonymous and wrong-peer all answer the same `false`, and
    /// only a plain blob request is ever let through.
    pub fn allows_fetch(&self, hash: &str, peer: Option<&str>, is_blob_request: bool, now: u64) -> (r: bool)
        requires
            self.wf(),
        ensures
            r == (is_blob_request && match peer {
                Some(p) => self.clocks().dom().contains((hash@, p@)) && self.clocks()[(hash@, p@)] > now,
                None => false,
            }),
    {
        if !is_blob_request {
            return false;
        }
        match peer {
            None => false,
            Some(p) => match self.find_clock(hash, p) {
                Some(i) => self.clocks[i].expires_at > now,
                None => false,
            },
        }
    }

    /// Drop the lapsed clocks and hand back the tags of the grants nobody
    /// holds anymore. Every lapsed peer loses its capability at once; a
    /// grant goes only when its LAST peer lapses, because the tag it owns
    /// keeps the bytes on disk for the peers still inside their hour. A
    /// grant that owned no tag yields none: that pin belongs to somebody
    /// else, and the sweep holds back a delete, never a revocation.
    pub fn take_expired(&mut self, now: u64) -> (r: Vec<String>)
        requires
            old(self).wf(),
        ensures
            final(self).wf(),
            final(self).clocks() == kept_clocks(old(self).clocks(), now, None),
            forall|k: (Seq<char>, Seq<char>)| #[trigger] final(self).clocks().dom().contains(k) ==> final(self).clocks()[k] > now,
            final(self).pins() == kept_pins(old(self).pins(), final(self).clocks()),
            crate::order::views(r@) == released(old(self).pin_entries(), final(self).clocks()),
            forall|t: Seq<char>| #[trigger] crate::order::views(r@).contains(t) <==> dropped_owner(old(self).pins(), final(self).pins(), t),
    {
        self.sweep(now, None)
    }

    /// Revoke every capability one peer holds: what unpairing does to bytes
    /// already staged for it. The grants nobody else holds go with it, and
    /// the tags they owned come back for deletion.
    pub fn revoke_peer(&mut self, peer: &str) -> (r: Vec<String>)
        requires
            old(self).wf(),
        ensures
            final(self).wf(),
            final(self).clocks() == kept_clocks(old(self).clocks(), 0, Some(peer@)),
            forall|h: Seq<char>| !(#[trigger] final(self).clocks().dom().contains((h, peer@))),
            final(self).pins() == kept_pins(old(self).pins(), final(self).clocks()),
            crate::order::views(r@) == released(old(self).pin_entries(), final(self).clocks()),
            forall|t: Seq<char>| #[trigger] crate::order::views(r@).contains(t) <==> dropped_owner(old(self).pins(), final(self).pins(), t),
    {
        self.sweep(0, Some(peer))
    }

    fn sweep(&mut self, now: u64, revoked: Option<&str>) -> (r: Vec<String>)
        requires
            old(self).wf(),
        ensures
            final(self).wf(),
            final(self).clocks() == kept_clocks(old(self).clocks(), now, match revoked { Some(p) => Some(p@), None => None }),
            final(self).pins() == kept_pins(old(self).pins(), final(self).clocks()),
            crate::order::views(r@) == released(old(self).pin_entries(), final(self).clocks()),
            forall|t: Seq<char>| #[trigger] crate::order::views(r@).contains(t) <==> dropped_owner(old(self).pins(), final(self).pins(), t),
    {
        let ghost rv: Option<Seq<char>> = match revoked { Some(p) => Some(p@), None => None };
        let ghost c0 = self.clocks();
        let ghost p0 = self.pins();
        let ghost pe0 = self.pins@;
        let mut cs: Vec<PeerClock> = Vec::new();
        std::mem::swap(&mut cs, &mut self.clocks);
        let mut kept: Vec<PeerClock> = Vec::new();
        let mut i: usize = 0;
        proof {
            assert(cs@.take(0) =~= Seq::<PeerClock>::empty());
            assert(kept_clocks(clock_map(cs@.take(0)), now, rv) =~= clock_map(kept@));
        }
        while i < cs.len()
            invariant
                i <= cs.len(),
                clocks_distinct(cs@),
                clocks_distinct(kept@),
                rv == (match revoked { Some(p) => Some(p@), None => None }),
                clock_map(kept@) == kept_clocks(clock_map(cs@.take(i as int)), now, rv),
            decreases cs.len() - i,
        {
            let c = &cs[i];
            let keep = match revoked {
                Some(p) => !same_text(c.peer.as_str(), p),
                None => c.expires_at > now,
            };
            let ghost pre = clock_map(cs@.take(i as int));
            let ghost k = clock_key(cs@[i as int]);
            proof {
                let t = cs@.take(i + 1);
                assert(t.drop_last() =~= cs@.take(i as int));
                assert(t.last() == cs@[i as int]);
                if pre.dom().contains(k) {
                    let j = lemma_clock_witness(cs@.take(i as int), k);
                    assert(cs@.take(i as int)[j] == cs@[j]);
                    assert(false);
                }
                assert(keep == keeps(k, cs@[i as int].expires_at, now, rv));
            }
            if keep {
                let copy = PeerClock { hash: own(c.hash.as_str()), peer: own(c.peer.as_str()), expires_at: c.expires_at };
                let ghost before = kept@;
                kept.push(copy);
                proof {
                    assert(kept@.drop_last() =~= before);
                    assert forall|a: int, b: int| 0 <= a < b < kept@.len() implies clock_key(#[trigger] kept@[a]) != clock_key(#[trigger] kept@[b]) by {
                        assert(kept@[a] == before[a]);
                        if b < before.len() {
                            assert(kept@[b] == before[b]);
                        } else {
                            lemma_clock_in(before, a);
                        }
                    }
                    assert(clock_map(kept@) =~= kept_clocks(pre.insert(k, cs@[i as int].expires_at), now, rv));
                }
            } else {
                proof {
                    assert(clock_map(kept@) =~= kept_clocks(pre.insert(k, cs@[i as int].expires_at), now, rv));
                }
            }
            i += 1;
        }
        proof {
            assert(cs@.take(cs.len() as int) =~= cs@);
        }
        self.clocks = kept;
        let ghost c1 = self.clocks();
        let mut ps: Vec<Pin> = Vec::new();
        std::mem::swap(&mut ps, &mut self.pins);
        let mut keptp: Vec<Pin> = Vec::new();
        let mut out: Vec<String> = Vec::new();
        let mut j: usize = 0;
        proof {
            assert(ps@.take(0) =~= Seq::<Pin>::empty());
            assert(kept_pins(pin_map(ps@.take(0)), c1) =~= pin_map(keptp@));
            assert(crate::order::views(out@) =~= released(ps@.take(0), c1));
        }
        while j < ps.len()
            invariant
                j <= ps.len(),
                ps@ == pe0,
                pins_distinct(ps@),
                pins_distinct(keptp@),
                clocks_distinct(self.clocks@),
                c1 == self.clocks(),
                pin_map(keptp@) == kept_pins(pin_map(ps@.take(j as int)), c1),
                crate::order::views(out@) == released(ps@.take(j as int), c1),
            decreases ps.len() - j,
        {
            let pin = &ps[j];
            let held = self.held(pin.hash.as_str());
            let ghost pre = pin_map(ps@.take(j as int));
            let ghost h = ps@[j as int].hash@;
            proof {
                let t = ps@.take(j + 1);
                assert(t.drop_last() =~= ps@.take(j as int));
                assert(t.last() == ps@[j as int]);
                if pre.dom().contains(h) {
                    let w = lemma_pin_witness(ps@.take(j as int), h);
                    assert(ps@.take(j as int)[w] == ps@[w]);
                    assert(false);
                }
            }
            if held {
                let copy = Pin { hash: own(pin.hash.as_str()), tag: match &pin.tag { Some(t) => Some(own(t.as_str())), None => None } };
                let ghost before = keptp@;
                keptp.push(copy);
                proof {
                    assert(keptp@.drop_last() =~= before);
                    assert forall|a: int, b: int| 0 <= a < b < keptp@.len() implies (#[trigger] keptp@[a]).hash@ != (#[trigger] keptp@[b]).hash@ by {
                        assert(keptp@[a] == before[a]);
                        if b < before.len() {
                            assert(keptp@[b] == before[b]);
                        } else {
                            lemma_pin_in(before, a);
                        }
                    }
                    assert(tag_view(copy.tag) == tag_view(ps@[j as int].tag));
                    assert(pin_map(keptp@) =~= kept_pins(pre.insert(h, tag_view(ps@[j as int].tag)), c1));
                }
            } else {
                match &pin.tag {
                    Some(t) => {
                        let ghost before = out@;
                        out.push(own(t.as_str()));
                        proof {
                            assert(crate::order::views(out@) =~= crate::order::views(before).push(t@));
                        }
                    },
                    None => {},
                }
                proof {
                    assert(pin_map(keptp@) =~= kept_pins(pre.insert(h, tag_view(ps@[j as int].tag)), c1));
                }
            }
            j += 1;
        }
        proof {
            assert(ps@.take(ps.len() as int) =~= ps@);
        }
        self.pins = keptp;
        proof {
            let c1 = self.clocks();
            let p1 = self.pins();
            assert forall|k: (Seq<char>, Seq<char>)| #[trigger] c1.dom().contains(k) implies p1.dom().contains(k.0) by {
                assert(c0.dom().contains(k));
                assert(p0.dom().contains(k.0));
                assert(hash_held(c1, k.0)) by {
                    assert(c1.dom().contains((k.0, k.1)));
                }
            }
            assert forall|t: Seq<char>| #[trigger] crate::order::views(out@).contains(t) implies dropped_owner(p0, p1, t) by {
                lemma_released_exact(pe0, c1, t);
            }
            assert forall|t: Seq<char>| dropped_owner(p0, p1, t) implies #[trigger] crate::order::views(out@).contains(t) by {
                lemma_released_exact(pe0, c1, t);
            }
        }
        out
    }

    /// Does some peer still hold a clock on `hash`?
    fn held(&self, hash: &str) -> (b: bool)
        ensures
            b == hash_held(self.clocks(), hash@),
    {
        let mut i: usize = 0;
        while i < self.clocks.len()
            invariant
                i <= self.clocks.len(),
                forall|j: int| 0 <= j < i ==> (#[trigger] self.clocks@[j]).hash@ != hash@,
            decreases self.clocks.len() - i,
        {
            if same_text(self.clocks[i].hash.as_str(), hash) {
                proof {
                    lemma_clock_in(self.clocks@, i as int);
                    assert(self.clocks().dom().contains((hash@, self.clocks@[i as int].peer@)));
                }
                return true;
            }
            i += 1;
        }
        proof {
            if hash_held(self.clocks(), hash@) {
                let q = choose|q: Seq<char>| #[trigger] self.clocks().dom().contains((hash@, q));
                let w = lemma_clock_witness(self.clocks@, (hash@, q));
                assert(self.clocks@[w].hash@ != hash@);
            }
        }
        false
    }

    fn push_pin(&mut self, hash: &str, tag: Option<String>)
        requires
            pins_distinct(old(self).pins@),
            !old(self).pins().dom().contains(hash@),
        ensures
            pins_distinct(final(self).pins@),
            final(self).pins() == old(self).pins().insert(hash@, tag_view(tag)),
            final(self).clocks@ == old(self).clocks@,
    {
        let ghost before = self.pins@;
        self.pins.push(Pin { hash: own(hash), tag });
        proof {
            assert(self.pins@.drop_last() =~= before);
            assert(pins_distinct(self.pins@)) by {
                assert forall|a: int, b: int| 0 <= a < b < self.pins@.len() implies (#[trigger] self.pins@[a]).hash@ != (#[trigger] self.pins@[b]).hash@ by {
                    assert(self.pins@[a] == before[a]);
                    if b < before.len() {
                        assert(self.pins@[b] == before[b]);
                    } else {
                        lemma_pin_in(before, a);
                    }
                }
            }
        }
    }

    /// Start (or restart) one peer's hour on one hash. Nothing else moves.
    fn set_clock(&mut self, hash: &str, peer: &str, now: u64)
        requires
            clocks_distinct(old(self).clocks@),
            now <= u64::MAX - GRANT_TTL_SECS,
        ensures
            clocks_distinct(final(self).clocks@),
            final(self).clocks() == old(self).clocks().insert((hash@, peer@), (now + GRANT_TTL_SECS) as u64),
            final(self).pins@ == old(self).pins@,
    {
        let c = PeerClock { hash: own(hash), peer: own(peer), expires_at: now + GRANT_TTL_SECS };
        match self.find_clock(hash, peer) {
            Some(i) => {
                proof {
                    lemma_clock_update(self.clocks@, i as int, c);
                }
                self.clocks.set(i, c);
            },
            None => {
                let ghost before = self.clocks@;
                self.clocks.push(c);
                proof {
                    assert(self.clocks@.drop_last() =~= before);
                    assert(clocks_distinct(self.clocks@)) by {
                        assert forall|a: int, b: int| 0 <= a < b < self.clocks@.len() implies clock_key(#[trigger] self.clocks@[a]) != clock_key(#[trigger] self.clocks@[b]) by {
                            assert(self.clocks@[a] == before[a]);
                            if b < before.len() {
                                assert(self.clocks@[b] == before[b]);
                            } else {
                                lemma_clock_in(before, a);
                            }
                        }
                    }
                }
            },
        }
    }
}


// ── Laws ────────────────────────────────────────────────────────────────────

/// Granting a hash to one peer moves that peer's clock on that hash and no
/// other: a retry loop re-granting bytes to one device never extends the
/// hour another peer earned.
pub proof fn law_a_grant_moves_one_clock(
    before: Map<(Seq<char>, Seq<char>), u64>,
    hash: Seq<char>,
    peer: Seq<char>,
    expires_at: u64,
    other: (Seq<char>, Seq<char>),
)
    requires
        other != (hash, peer),
    ensures
        before.insert((hash, peer), expires_at).dom().contains(other) == before.dom().contains(other),
        before.dom().contains(other) ==> before.insert((hash, peer), expires_at)[other] == before[other],
{
}

/// After a peer is revoked, no hash is fetchable by it, at any time.
pub proof fn law_a_revoked_peer_fetches_nothing(before: Map<(Seq<char>, Seq<char>), u64>, peer: Seq<char>, hash: Seq<char>)
    ensures
        !kept_clocks(before, 0, Some(peer)).dom().contains((hash, peer)),
{
}

/// After an expiry sweep at `now`, every capability left lapses after `now`.
pub proof fn law_a_swept_registry_holds_only_live_clocks(before: Map<(Seq<char>, Seq<char>), u64>, now: u64, k: (Seq<char>, Seq<char>))
    ensures
        kept_clocks(before, now, None).dom().contains(k) ==> kept_clocks(before, now, None)[k] > now,
{
}

} // verus!
