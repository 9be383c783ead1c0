//! Turning "send it to my phone" into exactly one paired peer, and "confirm
//! THAT pairing" into exactly one parked pairing.
//!
//! The caller types free text, so the match is forgiving (full node id,
//! device name, a prefix of either) and refuses to guess: two candidates is
//! an error that lists both, never the first one sorted. Sending a file to
//! the wrong machine is not undoable, and confirming the wrong pairing writes
//! trust to disk.

use vstd::prelude::*;
use vstd::utf8::encode_utf8;
use crate::order::{same_text, views};
use crate::peers::{short_id, short_id_spec, Peer, PendingPair};
use crate::text::{
    append, chars_of, contains_seq, dec, eq_ignore_ascii_case, eq_ignore_case, has_infix,
    has_prefix, join_strings, joined, lowercase, lowercase_of, own, push_dec, quoted, debug_str,
    starts_with, trim, trimmed, lemma_trim_idempotent,
};

verus! {

/// Shortest node-id prefix accepted: enough that a typo does not land on a
/// real peer, short enough to type.
pub const MIN_PREFIX: usize = 4;

/// The UTF-8 length of a run of characters.
pub open spec fn byte_len(s: Seq<char>) -> nat {
    encode_utf8(s).len()
}

/// A prefix argument, trimmed and lower-cased, or nothing when it is shorter
/// than the floor: the empty string would otherwise match everything.
pub open spec fn needle_spec(query: Seq<char>, min_chars: usize) -> Option<Seq<char>> {
    if byte_len(trim(query)) as usize >= min_chars {
        Some(lowercase_of(trim(query)))
    } else {
        None
    }
}

/// Normalize a prefix argument: trim it, then refuse one shorter than
/// `min_chars` bytes. Returns the lower-case needle a prefix match compares
/// against.
pub fn needle(query: &str, min_chars: usize) -> (r: Option<String>)
    ensures
        match r {
            Some(n) => needle_spec(query@, min_chars) == Some(n@),
            None => needle_spec(query@, min_chars) is None,
        },
{
    let t = trimmed(query);
    if t.as_str().len() >= min_chars {
        Some(lowercase(t.as_str()))
    } else {
        None
    }
}

/// Something a prefix argument is matched against by its id.
pub trait Keyed {
    spec fn key_view(&self) -> Seq<char>;

    fn key(&self) -> (r: &str)
        ensures
            r@ == self.key_view();
}

/// Something named back to the caller by device name and node id: a paired
/// peer, or a pairing still waiting for its fingerprint check.
pub trait Named {
    spec fn device_view(&self) -> Seq<char>;

    spec fn node_id_view(&self) -> Seq<char>;

    fn device(&self) -> (r: &str)
        ensures
            r@ == self.device_view();

    fn node_id(&self) -> (r: &str)
        ensures
            r@ == self.node_id_view();
}

impl Keyed for Peer {
    open spec fn key_view(&self) -> Seq<char> {
        self.node_id@
    }

    fn key(&self) -> (r: &str) {
        self.node_id.as_str()
    }
}

impl Keyed for crate::beam::OfferInfo {
    open spec fn key_view(&self) -> Seq<char> {
        self.id@
    }

    fn key(&self) -> (r: &str) {
        self.id.as_str()
    }
}

impl Keyed for PendingPair {
    open spec fn key_view(&self) -> Seq<char> {
        self.node_id@
    }

    fn key(&self) -> (r: &str) {
        self.node_id.as_str()
    }
}

impl Named for Peer {
    open spec fn device_view(&self) -> Seq<char> {
        self.device@
    }

    open spec fn node_id_view(&self) -> Seq<char> {
        self.node_id@
    }

    fn device(&self) -> (r: &str) {
        self.device.as_str()
    }

    fn node_id(&self) -> (r: &str) {
        self.node_id.as_str()
    }
}

impl Named for PendingPair {
    open spec fn device_view(&self) -> Seq<char> {
        self.device@
    }

    open spec fn node_id_view(&self) -> Seq<char> {
        self.node_id@
    }

    fn device(&self) -> (r: &str) {
        self.device.as_str()
    }

    fn node_id(&self) -> (r: &str) {
        self.node_id.as_str()
    }
}

/// The items whose lower-cased id starts with `needle`, in order.
pub open spec fn prefix_matches<T: Keyed>(items: Seq<T>, needle: Seq<char>) -> Seq<T>
    decreases items.len(),
{
    if items.len() == 0 {
        Seq::empty()
    } else {
        let r = prefix_matches(items.drop_last(), needle);
        if starts_with(lowercase_of(items.last().key_view()), needle) {
            r.push(items.last())
        } else {
            r
        }
    }
}

pub open spec fn derefs<T>(s: Seq<&T>) -> Seq<T> {
    s.map_values(|x: &T| *x)
}

/// Every item whose id starts with `needle`, which must already be lower
/// case. All of them, on purpose: resolving treats two as an error, while
/// revoking links revokes both. Deciding is the caller's job.
pub fn by_prefix<'a, T: Keyed>(items: &'a [T], needle: &str) -> (r: Vec<&'a T>)
    ensures
        derefs(r@) == prefix_matches(items@, needle@),
{
    let nv = chars_of(needle);
    let mut out: Vec<&'a T> = Vec::new();
    let mut i: usize = 0;
    assert(items@.take(0) =~= Seq::<T>::empty());
    while i < items.len()
        invariant
            i <= items.len(),
            nv@ == needle@,
            derefs(out@) == prefix_matches(items@.take(i as int), needle@),
        decreases items.len() - i,
    {
        proof {
            assert(items@.take(i + 1).drop_last() =~= items@.take(i as int));
            assert(items@.take(i + 1).last() == items@[i as int]);
        }
        let item = &items[i];
        let low = lowercase(item.key());
        let lv = chars_of(low.as_str());
        if has_prefix(&lv, &nv) {
            let ghost before = out@;
            out.push(item);
            proof {
                assert(derefs(out@) =~= derefs(before).push(*item));
            }
        }
        i += 1;
    }
    assert(items@.take(items.len() as int) =~= items@);
    out
}

// ── Naming candidates back ─────────────────────────────────────────────────

/// `Mac Studio (bbbbbbbbbb)`: the device name plus the short id that tells
/// two same-named machines apart.
pub open spec fn label_spec(device: Seq<char>, node_id: Seq<char>) -> Seq<char> {
    device + " ("@ + short_id_spec(node_id) + ")"@
}

pub open spec fn labels<T: Named>(items: Seq<T>) -> Seq<Seq<char>> {
    items.map_values(|x: T| label_spec(x.device_view(), x.node_id_view()))
}

/// How a peer or a pending pairing is named back to the caller.
pub fn label<T: Named>(item: &T) -> (r: String)
    ensures
        r@ == label_spec(item.device_view(), item.node_id_view()),
{
    let mut r = own(item.device());
    append(&mut r, " (");
    let s = short_id(item.node_id());
    append(&mut r, s.as_str());
    append(&mut r, ")");
    r
}

fn label_all<T: Named>(items: &Vec<&T>) -> (r: Vec<String>)
    ensures
        views(r@) == labels(derefs(items@)),
{
    let mut out: Vec<String> = Vec::new();
    let mut i: usize = 0;
    while i < items.len()
        invariant
            i <= items.len(),
            views(out@) == labels(derefs(items@)).take(i as int),
        decreases items.len() - i,
    {
        let l = label(items[i]);
        let ghost before = out@;
        out.push(l);
        proof {
            assert(derefs(items@)[i as int] == *items@[i as int]);
            assert(labels(derefs(items@))[i as int] == l@);
            assert(views(out@) =~= views(before).push(l@));
            assert(views(out@) =~= labels(derefs(items@)).take(i + 1));
        }
        i += 1;
    }
    assert(labels(derefs(items@)).take(items.len() as int) =~= labels(derefs(items@)));
    out
}

/// A comma-separated list of labels, for a refusal that has to say which
/// candidates it could not choose between.
pub fn names<T: Named>(items: &Vec<&T>) -> (r: String)
    ensures
        r@ == joined(labels(derefs(items@)), ", "@),
{
    let ls = label_all(items);
    join_strings(&ls, ", ")
}

fn refs_of<'a, T>(items: &'a [T]) -> (r: Vec<&'a T>)
    ensures
        derefs(r@) == items@,
{
    let mut out: Vec<&'a T> = Vec::new();
    let mut i: usize = 0;
    while i < items.len()
        invariant
            i <= items.len(),
            derefs(out@) == items@.take(i as int),
        decreases items.len() - i,
    {
        let ghost before = out@;
        out.push(&items[i]);
        proof {
            assert(derefs(out@) =~= derefs(before).push(items@[i as int]));
            assert(derefs(out@) =~= items@.take(i + 1));
        }
        i += 1;
    }
    assert(items@.take(items.len() as int) =~= items@);
    out
}

// ── Resolving a device argument ─────────────────────────────────────────────

/// Why a device argument did not name exactly one peer. Every variant
/// carries the material for a message that says what IS valid.
#[derive(Debug, PartialEq, Eq)]
pub enum ResolveError {
    /// Nothing is paired yet.
    NotPaired,
    /// Nothing matched.
    Unknown { query: String, known: Vec<String> },
    /// More than one peer matched.
    Ambiguous { query: String, matches: Vec<String> },
}

pub open spec fn not_paired_message() -> Seq<char> {
    "no devices are paired with this server yet \u{2014} call pair_device to start pairing"@
}

pub open spec fn resolve_message(e: ResolveError) -> Seq<char> {
    match e {
        ResolveError::NotPaired => not_paired_message(),
        ResolveError::Unknown { query, known } => "no paired device matches "@ + debug_str(query@)
            + ". Paired devices: "@ + joined(views(known@), ", "@),
        ResolveError::Ambiguous { query, matches } => debug_str(query@)
            + " matches more than one paired device: "@ + joined(views(matches@), ", "@)
            + ". Use the full name or a longer node id prefix"@,
    }
}

impl ResolveError {
    /// The sentence the caller is shown.
    pub fn message(&self) -> (r: String)
        ensures
            r@ == resolve_message(*self),
    {
        match self {
            ResolveError::NotPaired => own(
                "no devices are paired with this server yet \u{2014} call pair_device to start pairing",
            ),
            ResolveError::Unknown { query, known } => {
                let mut r = own("no paired device matches ");
                append(&mut r, quoted(query.as_str()).as_str());
                append(&mut r, ". Paired devices: ");
                append(&mut r, join_strings(known, ", ").as_str());
                r
            },
            ResolveError::Ambiguous { query, matches } => {
                let mut r = quoted(query.as_str());
                append(&mut r, " matches more than one paired device: ");
                append(&mut r, join_strings(matches, ", ").as_str());
                append(&mut r, ". Use the full name or a longer node id prefix");
                r
            },
        }
    }
}

/// The first peer whose node id is the query, ignoring ASCII case.
pub open spec fn id_match(ps: Seq<Peer>, l: Seq<char>) -> Option<Peer>
    decreases ps.len(),
{
    if ps.len() == 0 {
        None
    } else if eq_ignore_ascii_case(ps[0].node_id@, l) {
        Some(ps[0])
    } else {
        id_match(ps.drop_first(), l)
    }
}

/// The peers whose lower-cased name is the query.
pub open spec fn exact_names(ps: Seq<Peer>, l: Seq<char>) -> Seq<Peer>
    decreases ps.len(),
{
    if ps.len() == 0 {
        Seq::empty()
    } else {
        let r = exact_names(ps.drop_last(), l);
        if lowercase_of(ps.last().device@) == l {
            r.push(ps.last())
        } else {
            r
        }
    }
}

pub open spec fn node_ids(ps: Seq<Peer>) -> Seq<Seq<char>> {
    ps.map_values(|p: Peer| p.node_id@)
}

/// `acc`, then each peer whose lower-cased name contains the query and whose
/// node id is not already among them.
pub open spec fn with_substrings(acc: Seq<Peer>, ps: Seq<Peer>, l: Seq<char>) -> Seq<Peer>
    decreases ps.len(),
{
    if ps.len() == 0 {
        acc
    } else {
        let a = with_substrings(acc, ps.drop_last(), l);
        let p = ps.last();
        if contains_seq(lowercase_of(p.device@), l) && !node_ids(a).contains(p.node_id@) {
            a.push(p)
        } else {
            a
        }
    }
}

fn holds_node_id(ps: &Vec<&Peer>, id: &str) -> (b: bool)
    ensures
        b == node_ids(derefs(ps@)).contains(id@),
{
    let ghost ids = node_ids(derefs(ps@));
    let mut j: usize = 0;
    while j < ps.len()
        invariant
            j <= ps.len(),
            ids == node_ids(derefs(ps@)),
            forall|k: int| 0 <= k < j ==> ids[k] != id@,
        decreases ps.len() - j,
    {
        if same_text(ps[j].node_id.as_str(), id) {
            assert(ids[j as int] == id@);
            return true;
        }
        j += 1;
    }
    assert(!ids.contains(id@)) by {
        if ids.contains(id@) {
            let k = choose|k: int| 0 <= k < ids.len() && ids[k] == id@;
            assert(ids[k] != id@);
        }
    }
    false
}

/// The node-id prefix tier: the peers whose node id starts with the query,
/// when the query is long enough to be a prefix at all.
pub open spec fn prefix_tier(ps: Seq<Peer>, l: Seq<char>) -> Seq<Peer> {
    match needle_spec(l, MIN_PREFIX) {
        Some(n) => prefix_matches(ps, n),
        None => Seq::empty(),
    }
}

/// The name-substring tier: each peer whose lower-cased name contains the
/// query, once per node id.
pub open spec fn substring_tier(ps: Seq<Peer>, l: Seq<char>) -> Seq<Peer> {
    with_substrings(Seq::empty(), ps, l)
}

/// What a tier of candidates decides: the one peer, or an ambiguity that
/// names every candidate.
pub open spec fn decided(r: Result<Peer, ResolveError>, query: Seq<char>, c: Seq<Peer>) -> bool {
    if c.len() == 1 {
        r == Ok::<Peer, ResolveError>(c[0])
    } else {
        r matches Err(ResolveError::Ambiguous { query: q, matches }) && q@ == trim(query) && views(
            matches@,
        ) == labels(c)
    }
}

/// Settle a tier of candidates: exactly one is the answer, and more is an
/// error that lists them all.
pub fn decide(query: &str, candidates: Vec<&Peer>) -> (r: Result<Peer, ResolveError>)
    ensures
        decided(r, query@, derefs(candidates@)),
{
    if candidates.len() == 1 {
        return Ok(candidates[0].clone());
    }
    let matches = label_all(&candidates);
    Err(ResolveError::Ambiguous { query: trimmed(query), matches })
}

fn resolve_by_tiers(peers: &[Peer], query: &str) -> (r: Result<Peer, ResolveError>)
    ensures
        ({
            let l = lowercase_of(trim(query@));
            if peers@.len() == 0 {
                r == Err::<Peer, ResolveError>(ResolveError::NotPaired)
            } else if id_match(peers@, l) is Some {
                r == Ok::<Peer, ResolveError>(id_match(peers@, l).unwrap())
            } else if exact_names(peers@, l).len() > 0 {
                decided(r, query@, exact_names(peers@, l))
            } else if prefix_tier(peers@, l).len() > 0 {
                decided(r, query@, prefix_tier(peers@, l))
            } else if substring_tier(peers@, l).len() == 0 {
                r matches Err(ResolveError::Unknown { query: q, known }) && q@ == trim(query@) && views(
                    known@,
                ) == labels(peers@)
            } else {
                decided(r, query@, substring_tier(peers@, l))
            }
        }),
{
    if peers.len() == 0 {
        return Err(ResolveError::NotPaired);
    }
    let t = trimmed(query);
    let lowered = lowercase(t.as_str());
    let lv = chars_of(lowered.as_str());
    let ghost l = lowered@;
    assert(l == lowercase_of(trim(query@)));

    // A full node id, ignoring case.
    let mut i: usize = 0;
    assert(peers@.subrange(0, peers.len() as int) =~= peers@);
    while i < peers.len()
        invariant
            i <= peers.len(),
            lv@ == l,
            l == lowercase_of(trim(query@)),
            id_match(peers@, l) == id_match(peers@.subrange(i as int, peers.len() as int), l),
        decreases peers.len() - i,
    {
        proof {
            assert(peers@.subrange(i as int, peers.len() as int)[0] == peers@[i as int]);
            assert(peers@.subrange(i as int, peers.len() as int).drop_first() =~= peers@.subrange(i + 1, peers.len() as int));
        }
        let idv = chars_of(peers[i].node_id.as_str());
        if eq_ignore_case(&idv, &lv) {
            let p = peers[i].clone();
            assert(id_match(peers@, l) == Some(peers@[i as int]));
            return Ok(p);
        }
        i += 1;
    }
    assert(peers@.subrange(i as int, peers.len() as int) =~= Seq::<Peer>::empty());
    assert(id_match(peers@, l) is None);

    // An exact device name.
    let mut exact: Vec<&Peer> = Vec::new();
    let mut i: usize = 0;
    assert(peers@.take(0) =~= Seq::<Peer>::empty());
    while i < peers.len()
        invariant
            i <= peers.len(),
            lowered@ == l,
            derefs(exact@) == exact_names(peers@.take(i as int), l),
        decreases peers.len() - i,
    {
        proof {
            assert(peers@.take(i + 1).drop_last() =~= peers@.take(i as int));
            assert(peers@.take(i + 1).last() == peers@[i as int]);
        }
        let name = lowercase(peers[i].device.as_str());
        if same_text(name.as_str(), lowered.as_str()) {
            let ghost before = exact@;
            exact.push(&peers[i]);
            proof {
                assert(derefs(exact@) =~= derefs(before).push(peers@[i as int]));
            }
        }
        i += 1;
    }
    assert(peers@.take(peers.len() as int) =~= peers@);
    if exact.len() > 0 {
        return decide(query, exact);
    }

    // A node-id prefix.
    let prefixed: Vec<&Peer> = match needle(lowered.as_str(), MIN_PREFIX) {
        Some(prefix) => by_prefix(peers, prefix.as_str()),
        None => Vec::new(),
    };
    assert(derefs(prefixed@) =~= prefix_tier(peers@, l));
    if prefixed.len() > 0 {
        return decide(query, prefixed);
    }

    // A device-name substring.
    let mut fuzzy: Vec<&Peer> = Vec::new();
    let ghost f0 = derefs(fuzzy@);
    assert(f0 =~= Seq::<Peer>::empty());
    assert(peers@.take(0) =~= Seq::<Peer>::empty());
    let mut i: usize = 0;
    while i < peers.len()
        invariant
            i <= peers.len(),
            lv@ == l,
            lowered@ == l,
            derefs(fuzzy@) == with_substrings(f0, peers@.take(i as int), l),
        decreases peers.len() - i,
    {
        proof {
            assert(peers@.take(i + 1).drop_last() =~= peers@.take(i as int));
            assert(peers@.take(i + 1).last() == peers@[i as int]);
        }
        let name = lowercase(peers[i].device.as_str());
        let nv = chars_of(name.as_str());
        if has_infix(&nv, &lv) {
            let seen = holds_node_id(&fuzzy, peers[i].node_id.as_str());
            if !seen {
                let ghost before = fuzzy@;
                fuzzy.push(&peers[i]);
                proof {
                    assert(derefs(fuzzy@) =~= derefs(before).push(peers@[i as int]));
                }
            }
        }
        i += 1;
    }
    assert(peers@.take(peers.len() as int) =~= peers@);
    if fuzzy.len() == 0 {
        let all = refs_of(peers);
        let known = label_all(&all);
        return Err(ResolveError::Unknown { query: t, known });
    }
    decide(query, fuzzy)
}
/// Match `query` against the paired peers. Most specific first: a full node
/// id, then an exact device name, then a node-id prefix, then a device-name
/// substring. The first tier that finds candidates decides, so an exact name
/// always beats somebody else's substring, and a tier that finds two is an
/// error.
pub fn resolve_device(peers: &[Peer], query: &str) -> (r: Result<Peer, ResolveError>)
    ensures
        ({
            let l = lowercase_of(trim(query@));
            if peers@.len() == 0 {
                r == Err::<Peer, ResolveError>(ResolveError::NotPaired)
            } else if id_match(peers@, l) is Some {
                r == Ok::<Peer, ResolveError>(id_match(peers@, l).unwrap())
            } else if exact_names(peers@, l).len() > 0 {
                decided(r, query@, exact_names(peers@, l))
            } else if prefix_tier(peers@, l).len() > 0 {
                decided(r, query@, prefix_tier(peers@, l))
            } else if substring_tier(peers@, l).len() == 0 {
                r matches Err(ResolveError::Unknown { query: q, known }) && q@ == trim(query@) && views(
                    known@,
                ) == labels(peers@)
            } else {
                decided(r, query@, substring_tier(peers@, l))
            }
        }),
        ({
            let l = lowercase_of(trim(query@));
            (forall|k: int| 0 <= k < peers@.len() ==> !eq_ignore_ascii_case(#[trigger] peers@[k].node_id@, l))
                && (exists|k: int| 0 <= k < peers@.len() && lowercase_of(#[trigger] peers@[k].device@) == l)
            ==> match r {
                Ok(p) => peers@.contains(p) && lowercase_of(p.device@) == l,
                Err(ResolveError::Ambiguous { query: q, matches }) => views(matches@) == labels(exact_names(peers@, l))
                    && exact_names(peers@, l).len() >= 2,
                _ => false,
            }
        }),
{
    let r = resolve_by_tiers(peers, query);
    proof {
        let l = lowercase_of(trim(query@));
        law_the_exact_tier_ignores_case(peers@, l);
        if (forall|k: int| 0 <= k < peers@.len() ==> !eq_ignore_ascii_case(#[trigger] peers@[k].node_id@, l))
            && (exists|k: int| 0 <= k < peers@.len() && lowercase_of(#[trigger] peers@[k].device@) == l) {
            lemma_no_id_match(peers@, l);
            let k = choose|k: int| 0 <= k < peers@.len() && lowercase_of(#[trigger] peers@[k].device@) == l;
            assert(peers@.contains(peers@[k]));
            assert(exact_names(peers@, l).contains(peers@[k]));
            let c = exact_names(peers@, l);
            if c.len() == 1 {
                assert(c.contains(c[0]));
            }
        }
    }
    r
}

/// The exact-name tier is exactly the paired peers whose device name equals
/// the query ignoring case (the query already trimmed and lower-cased), each
/// once, in the order they were paired.
pub proof fn law_the_exact_tier_ignores_case(ps: Seq<Peer>, l: Seq<char>)
    ensures
        forall|p: Peer| #[trigger] exact_names(ps, l).contains(p) <==> (ps.contains(p) && lowercase_of(p.device@) == l),
        exact_names(ps, l).len() <= ps.len(),
    decreases ps.len(),
{
    if ps.len() > 0 {
        let d = ps.drop_last();
        let last = ps.last();
        law_the_exact_tier_ignores_case(d, l);
        let e = exact_names(d, l);
        assert forall|p: Peer| #[trigger] exact_names(ps, l).contains(p) <==> (ps.contains(p) && lowercase_of(p.device@) == l) by {
            assert(ps =~= d.push(last));
            if ps.contains(p) && p != last {
                let k = choose|k: int| 0 <= k < ps.len() && ps[k] == p;
                assert(d[k] == p);
            }
            if d.contains(p) {
                let k = choose|k: int| 0 <= k < d.len() && d[k] == p;
                assert(ps[k] == p);
            }
            assert(ps[ps.len() - 1] == last);
            if lowercase_of(last.device@) == l {
                let en = e.push(last);
                if en.contains(p) && p != last {
                    let k = choose|k: int| 0 <= k < en.len() && en[k] == p;
                    assert(e[k] == p);
                }
                if e.contains(p) {
                    let k = choose|k: int| 0 <= k < e.len() && e[k] == p;
                    assert(en[k] == p);
                }
                assert(en[e.len() as int] == last);
            }
        }
    }
}

proof fn lemma_no_id_match(ps: Seq<Peer>, l: Seq<char>)
    requires
        forall|k: int| 0 <= k < ps.len() ==> !eq_ignore_ascii_case(#[trigger] ps[k].node_id@, l),
    ensures
        id_match(ps, l) is None,
    decreases ps.len(),
{
    if ps.len() > 0 {
        assert(!eq_ignore_ascii_case(ps[0].node_id@, l));
        assert forall|k: int| 0 <= k < ps.drop_first().len() implies !eq_ignore_ascii_case(#[trigger] ps.drop_first()[k].node_id@, l) by {
            assert(ps.drop_first()[k] == ps[k + 1]);
        }
        lemma_no_id_match(ps.drop_first(), l);
    }
}

// ── Resolving a pending pairing ─────────────────────────────────────────────

pub open spec fn none_waiting_message() -> Seq<char> {
    "no pairing is waiting for confirmation \u{2014} call pair_device and open the link on the other device first"@
}

pub open spec fn too_short_message() -> Seq<char> {
    "node_id must be at least "@ + dec(MIN_PREFIX as nat) + " characters \u{2014} pass the node id from pair_status"@
}

/// Which parked pairing a `node_id` argument names, or the only one waiting
/// when the argument is absent. Same prefix rule as for devices and the same
/// refusal to guess: confirming writes trust to disk.
/// What `resolve_pending` gives, as a value.
pub open spec fn resolve_pending_spec(parked: Seq<PendingPair>, query: Option<&str>) -> Result<PendingPair, Seq<char>> {
    match query {
        None => if parked.len() == 0 {
            Err(none_waiting_message())
        } else if parked.len() == 1 {
            Ok(parked[0])
        } else {
            Err(dec(parked.len()) + " pairings are waiting; pass node_id to say which one: "@ + joined(labels(parked), ", "@))
        },
        Some(q) => match needle_spec(trim(q@), MIN_PREFIX) {
            None => Err(too_short_message()),
            Some(n) => {
                let m = prefix_matches(parked, n);
                if m.len() == 1 {
                    Ok(m[0])
                } else if m.len() == 0 {
                    Err("no pairing is waiting for "@ + debug_str(trim(q@)))
                } else {
                    Err(debug_str(trim(q@)) + " matches "@ + dec(m.len()) + " waiting pairings: "@ + joined(labels(m), ", "@)
                        + ". Pass the full node id"@)
                }
            },
        },
    }
}

pub fn resolve_pending<'a>(parked: &'a [PendingPair], query: Option<&str>) -> (r: Result<&'a PendingPair, String>)
    ensures
        match query {
            None => if parked@.len() == 0 {
                r matches Err(e) && e@ == none_waiting_message()
            } else if parked@.len() == 1 {
                r matches Ok(p) && *p == parked@[0]
            } else {
                r matches Err(e) && e@ == dec(parked@.len()) + " pairings are waiting; pass node_id to say which one: "@
                    + joined(labels(parked@), ", "@)
            },
            Some(q) => match needle_spec(trim(q@), MIN_PREFIX) {
                None => r matches Err(e) && e@ == too_short_message(),
                Some(n) => {
                    let m = prefix_matches(parked@, n);
                    if m.len() == 1 {
                        r matches Ok(p) && *p == m[0]
                    } else if m.len() == 0 {
                        r matches Err(e) && e@ == "no pairing is waiting for "@ + debug_str(trim(q@))
                    } else {
                        r matches Err(e) && e@ == debug_str(trim(q@)) + " matches "@ + dec(m.len())
                            + " waiting pairings: "@ + joined(labels(m), ", "@) + ". Pass the full node id"@
                    }
                },
            },
        },
{
    let q = match query {
        None => {
            if parked.len() == 0 {
                return Err(own(
                    "no pairing is waiting for confirmation \u{2014} call pair_device and open the link on the other device first",
                ));
            }
            if parked.len() == 1 {
                return Ok(&parked[0]);
            }
            let mut m = String::new();
            push_dec(&mut m, parked.len() as u64);
            append(&mut m, " pairings are waiting; pass node_id to say which one: ");
            let all = refs_of(parked);
            append(&mut m, names(&all).as_str());
            assert(m@ =~= dec(parked@.len()) + " pairings are waiting; pass node_id to say which one: "@
                + joined(labels(parked@), ", "@));
            return Err(m);
        },
        Some(q) => q,
    };
    let t = trimmed(q);
    let prefix = match needle(t.as_str(), MIN_PREFIX) {
        None => {
            let mut m = own("node_id must be at least ");
            push_dec(&mut m, MIN_PREFIX as u64);
            append(&mut m, " characters \u{2014} pass the node id from pair_status");
            assert(m@ =~= too_short_message());
            return Err(m);
        },
        Some(p) => p,
    };
    let matches = by_prefix(parked, prefix.as_str());
    if matches.len() == 1 {
        return Ok(matches[0]);
    }
    if matches.len() == 0 {
        let mut m = own("no pairing is waiting for ");
        append(&mut m, quoted(t.as_str()).as_str());
        return Err(m);
    }
    let mut m = quoted(t.as_str());
    append(&mut m, " matches ");
    push_dec(&mut m, matches.len() as u64);
    append(&mut m, " waiting pairings: ");
    append(&mut m, names(&matches).as_str());
    append(&mut m, ". Pass the full node id");
    assert(m@ =~= debug_str(trim(q@)) + " matches "@ + dec(derefs(matches@).len()) + " waiting pairings: "@
        + joined(labels(derefs(matches@)), ", "@) + ". Pass the full node id"@);
    Err(m)
}

} // verus!
