//! Scope: the session protocol's rules. What a published tab list tells a
//! subscriber, which paths may reach the filesystem, how many sessions one
//! peer may hold, how a host answers a handshake and a request, and how a
//! client reads the answer to its own.
//!
//! The host checks, per request, in an order never changed: the allowlist,
//! the scope filter, the root gate, and for a view-open peer the narrowing to
//! what it was told about. Every refusal carries one wording, so a peer
//! cannot tell a missing file from a forbidden one.

use vstd::prelude::*;
use crate::order::{same_text, views};
use crate::proto::{ArtifactMeta, Event, Frame, HelloAck, PairAck, PathEntry, Req, Res, TabEntry, TreeEntry, PROTO_VERSION};
use crate::text::{append, chars_of, clean, own, string_of, trim, trim_chars, truncate, clean_prefix};

verus! {

/// The one refusal string: a peer learns nothing about what exists from it.
pub const DENIED: &'static str = "path not found or out of root";

/// Concurrent sessions one peer may hold.
pub const MAX_SESSIONS_PER_PEER: usize = 4;

/// How long a staged artifact stays fetchable by the peer that asked for it.
pub const GRANT_TTL_SECS: u64 = 3600;

/// Directory children returned by one tree listing.
pub const MAX_TREE_ENTRIES: usize = 2000;

/// Display cap on a close reason another machine wrote.
pub const MAX_CLOSE_REASON_CHARS: usize = 100;

/// Subject of every failed dial: a timeout reads the same as a refusal,
/// because both mean the same thing to the person looking at the screen.
pub const PEER_OFFLINE: &'static str = "peer offline \u{2014} could not reach it";

// ── Tab events ──────────────────────────────────────────────────────────────

/// The kind an opened tab's event carries.
pub open spec fn opened() -> int {
    0
}

/// The kind a closed tab's event carries.
pub open spec fn closed() -> int {
    1
}

/// The kind an activation carries.
pub open spec fn activated() -> int {
    2
}

/// An event as its kind and the path it names: the view the tab diff is
/// stated in. A tab diff never produces a file change, so the content
/// address a file change carries is not part of it.
pub open spec fn event_view(e: Event) -> (int, Seq<char>) {
    match e {
        Event::TabOpened { path } => (0, path@),
        Event::TabClosed { path } => (1, path@),
        Event::TabActivated { path } => (2, path@),
        Event::FileChanged { path, hash } => (3, path@),
        Event::FileRemoved { path } => (4, path@),
    }
}

/// The distinct non-empty paths of a tab list, in strip order. Paths, not
/// tabs, are the wire identity: two tabs on one file are one entry, and an
/// empty path is the start page, not an artifact.
pub open spec fn wire_paths(tabs: Seq<TabEntry>) -> Seq<Seq<char>>
    decreases tabs.len(),
{
    if tabs.len() == 0 {
        Seq::empty()
    } else {
        let u = wire_paths(tabs.drop_last());
        let p = tabs.last().path@;
        if p.len() == 0 || u.contains(p) {
            u
        } else {
            u.push(p)
        }
    }
}

/// The active tab's path, when the active tab is an artifact.
pub open spec fn active_path(tabs: Seq<TabEntry>) -> Option<Seq<char>>
    decreases tabs.len(),
{
    if tabs.len() == 0 {
        None
    } else if tabs[0].active && tabs[0].path@.len() > 0 {
        Some(tabs[0].path@)
    } else {
        active_path(tabs.drop_first())
    }
}

/// The members of `a` that `b` lacks, in `a`'s order.
pub open spec fn missing_from(a: Seq<Seq<char>>, b: Seq<Seq<char>>) -> Seq<Seq<char>>
    decreases a.len(),
{
    if a.len() == 0 {
        a
    } else {
        let r = missing_from(a.drop_last(), b);
        if b.contains(a.last()) {
            r
        } else {
            r.push(a.last())
        }
    }
}

pub open spec fn tagged(kind: int, ps: Seq<Seq<char>>) -> Seq<(int, Seq<char>)> {
    ps.map_values(|p: Seq<char>| (kind, p))
}

/// The events two published tab lists imply: closes, then opens, then the
/// activation, so a client applying the batch never sees a path briefly
/// absent from a list it is about to re-add.
pub open spec fn tab_events(prev: Seq<TabEntry>, next: Seq<TabEntry>) -> Seq<(int, Seq<char>)> {
    tagged(closed(), missing_from(wire_paths(prev), wire_paths(next))) + tagged(
        opened(),
        missing_from(wire_paths(next), wire_paths(prev)),
    ) + match active_path(next) {
        Some(a) => if active_path(prev) == Some(a) {
            Seq::empty()
        } else {
            seq![(activated(), a)]
        },
        None => Seq::empty(),
    }
}

/// Does `v` hold the text `s`?
pub fn contains_text(v: &Vec<String>, s: &str) -> (b: bool)
    ensures
        b == views(v@).contains(s@),
{
    let mut i: usize = 0;
    while i < v.len()
        invariant
            i <= v.len(),
            forall|k: int| 0 <= k < i ==> (#[trigger] v@[k])@ != s@,
        decreases v.len() - i,
    {
        if same_text(v[i].as_str(), s) {
            assert(views(v@)[i as int] == s@);
            return true;
        }
        i += 1;
    }
    assert(!views(v@).contains(s@)) by {
        if views(v@).contains(s@) {
            let k = choose|k: int| 0 <= k < views(v@).len() && views(v@)[k] == s@;
            assert(v@[k]@ == s@);
        }
    }
    false
}

/// The distinct non-empty paths of a tab list, in strip order.
pub fn unique_paths(tabs: &[TabEntry]) -> (r: Vec<String>)
    ensures
        views(r@) == wire_paths(tabs@),
{
    let mut out: Vec<String> = Vec::new();
    let mut i: usize = 0;
    assert(tabs@.take(0) =~= Seq::<TabEntry>::empty());
    while i < tabs.len()
        invariant
            i <= tabs.len(),
            views(out@) == wire_paths(tabs@.take(i as int)),
        decreases tabs.len() - i,
    {
        proof {
            assert(tabs@.take(i + 1).drop_last() =~= tabs@.take(i as int));
            assert(tabs@.take(i + 1).last() == tabs@[i as int]);
        }
        let p = &tabs[i].path;
        if !p.as_str().is_empty() && !contains_text(&out, p.as_str()) {
            let c = p.clone();
            let ghost before = out@;
            out.push(c);
            proof {
                assert(views(out@) =~= views(before).push(c@));
            }
        }
        i += 1;
    }
    assert(tabs@.take(tabs.len() as int) =~= tabs@);
    out
}

/// The active tab's path. An empty path is the start page: it is neither
/// listed nor activated on the wire.
pub fn active_of(tabs: &[TabEntry]) -> (r: Option<String>)
    ensures
        match r {
            Some(p) => active_path(tabs@) == Some(p@),
            None => active_path(tabs@) is None,
        },
{
    let mut i: usize = 0;
    assert(tabs@.subrange(0, tabs.len() as int) =~= tabs@);
    while i < tabs.len()
        invariant
            i <= tabs.len(),
            active_path(tabs@) == active_path(tabs@.subrange(i as int, tabs.len() as int)),
        decreases tabs.len() - i,
    {
        proof {
            assert(tabs@.subrange(i as int, tabs.len() as int)[0] == tabs@[i as int]);
            assert(tabs@.subrange(i as int, tabs.len() as int).drop_first() =~= tabs@.subrange(i + 1, tabs.len() as int));
        }
        if tabs[i].active && !tabs[i].path.as_str().is_empty() {
            return Some(tabs[i].path.clone());
        }
        i += 1;
    }
    None
}

fn push_missing(out: &mut Vec<Event>, a: &Vec<String>, b: &Vec<String>, as_open: bool)
    ensures
        final(out)@.map_values(|e: Event| event_view(e)) == old(out)@.map_values(|e: Event| event_view(e)) + tagged(
            if as_open { opened() } else { closed() },
            missing_from(views(a@), views(b@)),
        ),
{
    let ghost kind: int = if as_open { opened() } else { closed() };
    let ghost o0 = out@.map_values(|e: Event| event_view(e));
    let mut i: usize = 0;
    assert(views(a@).take(0) =~= Seq::<Seq<char>>::empty());
    assert(o0 + tagged(kind, missing_from(views(a@).take(0), views(b@))) =~= o0);
    while i < a.len()
        invariant
            i <= a.len(),
            out@.map_values(|e: Event| event_view(e)) == o0 + tagged(kind, missing_from(views(a@).take(i as int), views(b@))),
            kind == (if as_open { opened() } else { closed() }),
        decreases a.len() - i,
    {
        let ghost ta = views(a@).take(i + 1);
        proof {
            assert(ta.drop_last() =~= views(a@).take(i as int));
            assert(ta.last() == a@[i as int]@);
        }
        if !contains_text(b, a[i].as_str()) {
            let p = a[i].clone();
            let e = if as_open {
                Event::TabOpened { path: p }
            } else {
                Event::TabClosed { path: p }
            };
            let ghost before = out@;
            out.push(e);
            proof {
                assert(out@.map_values(|e: Event| event_view(e)) =~= before.map_values(|e: Event| event_view(e)).push((kind, p@)));
                assert(tagged(kind, missing_from(ta, views(b@))) =~= tagged(kind, missing_from(views(a@).take(i as int), views(b@))).push((kind, p@)));
            }
        } else {
            proof {
                assert(missing_from(ta, views(b@)) == missing_from(views(a@).take(i as int), views(b@)));
            }
        }
        i += 1;
    }
    assert(views(a@).take(a.len() as int) =~= views(a@));
}

/// Derive tab opens, closes and the activation from two published tab
/// lists. Pure: the whole tab-event surface is testable without a webview.
pub fn diff_tabs(prev: &[TabEntry], next: &[TabEntry]) -> (r: Vec<Event>)
    ensures
        r@.map_values(|e: Event| event_view(e)) == tab_events(prev@, next@),
{
    let prev_paths = unique_paths(prev);
    let next_paths = unique_paths(next);
    let mut events: Vec<Event> = Vec::new();
    assert(events@.map_values(|e: Event| event_view(e)) =~= Seq::<(int, Seq<char>)>::empty());
    push_missing(&mut events, &prev_paths, &next_paths, false);
    push_missing(&mut events, &next_paths, &prev_paths, true);
    let ghost mid = events@.map_values(|e: Event| event_view(e));
    match active_of(next) {
        Some(active) => {
            let was = active_of(prev);
            let same = match &was {
                Some(p) => same_text(p.as_str(), active.as_str()),
                None => false,
            };
            if !same {
                let ghost a = active@;
                let ghost before = events@;
                events.push(Event::TabActivated { path: active });
                proof {
                    assert(events@.map_values(|e: Event| event_view(e)) =~= before.map_values(|e: Event| event_view(e)).push((activated(), a)));
                    assert(events@.map_values(|e: Event| event_view(e)) =~= tab_events(prev@, next@));
                }
            } else {
                assert(events@.map_values(|e: Event| event_view(e)) =~= tab_events(prev@, next@));
            }
        },
        None => {
            assert(events@.map_values(|e: Event| event_view(e)) =~= tab_events(prev@, next@));
        },
    }
    events
}

proof fn lemma_missing_from_self(a: Seq<Seq<char>>, b: Seq<Seq<char>>)
    requires
        forall|i: int| 0 <= i < a.len() ==> b.contains(#[trigger] a[i]),
    ensures
        missing_from(a, b).len() == 0,
    decreases a.len(),
{
    if a.len() > 0 {
        assert(b.contains(a[a.len() - 1]));
        lemma_missing_from_self(a.drop_last(), b);
    }
}

/// Publishing an unchanged tab list tells subscribers nothing.
pub proof fn law_unchanged_tabs_derive_nothing(tabs: Seq<TabEntry>)
    ensures
        tab_events(tabs, tabs).len() == 0,
{
    let u = wire_paths(tabs);
    assert forall|i: int| 0 <= i < u.len() implies u.contains(#[trigger] u[i]) by {}
    lemma_missing_from_self(u, u);
}

// ── The published tab list ─────────────────────────────────────────────────

/// The host's open-tab list as last published, diffed into events for
/// subscribers on every publish.
pub struct TabsCache {
    tabs: Vec<TabEntry>,
}

impl TabsCache {
    pub closed spec fn tabs(&self) -> Seq<TabEntry> {
        self.tabs@
    }

    pub fn new() -> (c: TabsCache)
        ensures
            c.tabs().len() == 0,
    {
        TabsCache { tabs: Vec::new() }
    }

    pub fn list(&self) -> (r: Vec<TabEntry>)
        ensures
            r@ == self.tabs(),
    {
        let mut out: Vec<TabEntry> = Vec::new();
        let mut i: usize = 0;
        while i < self.tabs.len()
            invariant
                i <= self.tabs.len(),
                out@ == self.tabs@.take(i as int),
            decreases self.tabs.len() - i,
        {
            out.push(self.tabs[i].clone());
            assert(out@ =~= self.tabs@.take(i + 1));
            i += 1;
        }
        assert(self.tabs@.take(i as int) =~= self.tabs@);
        out
    }

    /// Replace the cached list, returning the events the change implies.
    pub fn publish(&mut self, next: Vec<TabEntry>) -> (r: Vec<Event>)
        ensures
            final(self).tabs() == next@,
            r@.map_values(|e: Event| event_view(e)) == tab_events(old(self).tabs(), next@),
    {
        let events = diff_tabs(self.tabs.as_slice(), next.as_slice());
        self.tabs = next;
        events
    }
}


// ── How a client reads the answer to its dial ───────────────────────────────

/// Why a dial produced no session, split by what a retry can change.
#[derive(Debug, PartialEq, Eq)]
pub enum ConnectError {
    /// The peer was never spoken to: the dial failed, or the peer took the
    /// connection and never answered the handshake. Only this means asleep.
    Unreachable(String),
    /// The peer, or its stream, answered: a refusal, a version mismatch, a
    /// frame that is not an ack. A retry later cannot change any of these.
    Refused(String),
}

impl ConnectError {
    /// The sentence, verbatim, whichever the variant.
    pub fn message(&self) -> (r: String)
        ensures
            r@ == (match self {
                ConnectError::Unreachable(m) => m@,
                ConnectError::Refused(m) => m@,
            }),
    {
        match self {
            ConnectError::Unreachable(m) => m.clone(),
            ConnectError::Refused(m) => m.clone(),
        }
    }
}

/// Why a push did not land, split by whether repeating it could change the
/// answer.
#[derive(Debug, PartialEq, Eq)]
pub enum PushFailure {
    /// This side refused before anything went out.
    Local(String),
    /// The session is gone: the request never reached the host, or its
    /// answer never came back.
    Transport(String),
    /// The host answered, and its answer was not a landed push.
    Denied(String),
}

impl PushFailure {
    pub fn message(&self) -> (r: String)
        ensures
            r@ == (match self {
                PushFailure::Local(m) => m@,
                PushFailure::Transport(m) => m@,
                PushFailure::Denied(m) => m@,
            }),
    {
        match self {
            PushFailure::Local(m) => m.clone(),
            PushFailure::Transport(m) => m.clone(),
            PushFailure::Denied(m) => m.clone(),
        }
    }
}

/// What a completed push reports back: the name the HOST gave the landed
/// file and the size it measured, never the numbers this side announced.
#[derive(Debug, PartialEq, Eq)]
pub struct PushedArtifact {
    pub name: String,
    pub size: u64,
    /// Content address, hex: the string both sides verified.
    pub hash: String,
}

/// The refusal text a handshake answer carries. The answer, classified: the
/// host's device and the scope it granted, or why there is no session. Every
/// refusal is `Refused`: the peer spoke, so waiting for it to wake up is not
/// the answer to any of them.
pub open spec fn ack_refusal(ack: Frame) -> Seq<char> {
    match ack {
        Frame::Res(Res::Hello(a)) => "unsupported protocol version"@,
        Frame::Res(Res::Denied(reason)) => reason@,
        _ => "the peer answered with an unexpected frame"@,
    }
}

pub fn classify_ack(ack: Frame) -> (r: Result<(String, String), ConnectError>)
    ensures
        match ack {
            Frame::Res(Res::Hello(a)) if a.proto == PROTO_VERSION => r matches Ok((d, s)) && d@
                == a.device@ && s@ == a.scope@,
            _ => r matches Err(ConnectError::Refused(m)) && m@ == ack_refusal(ack),
        },
{
    match ack {
        Frame::Res(Res::Hello(a)) => {
            if a.proto == PROTO_VERSION {
                Ok((a.device, a.scope))
            } else {
                Err(ConnectError::Refused(own("unsupported protocol version")))
            }
        },
        Frame::Res(Res::Denied(reason)) => Err(ConnectError::Refused(reason)),
        _ => Err(ConnectError::Refused(own("the peer answered with an unexpected frame"))),
    }
}

/// What a peer wrote when it closed on purpose, as a person may read it:
/// stripped of control and spoofing characters, bounded, trimmed, and
/// nothing when nothing is left. It is displayed, never matched.
pub open spec fn stated_reason(raw: Seq<char>) -> Option<Seq<char>> {
    let t = trim(truncate(clean(raw), MAX_CLOSE_REASON_CHARS as nat));
    if t.len() == 0 {
        None
    } else {
        Some(t)
    }
}

pub fn stated_refusal(raw: &str) -> (r: Option<String>)
    ensures
        match r {
            Some(t) => stated_reason(raw@) == Some(t@),
            None => stated_reason(raw@) is None,
        },
{
    let cleaned = clean_prefix(raw, MAX_CLOSE_REASON_CHARS);
    let t = trim_chars(&cleaned);
    if t.len() == 0 {
        None
    } else {
        Some(string_of(&t))
    }
}

/// One post-dial failure, in the peer's own words when it left any and in
/// the transport's when it did not.
pub fn refusal(stated: Option<String>, transport: String) -> (r: ConnectError)
    ensures
        r == ConnectError::Refused(match stated {
            Some(s) => s,
            None => transport,
        }),
{
    match stated {
        Some(s) => ConnectError::Refused(s),
        None => ConnectError::Refused(transport),
    }
}

/// How far a dial got, as the shell saw it. `stated` is what the peer wrote
/// when it closed the connection, when it did.
pub enum DialOutcome {
    /// The dial itself failed; the reason already names the peer offline.
    DialFailed(String),
    /// The peer took the connection, and the session stream would not open.
    OpenFailed { stated: Option<String>, error: String },
    /// The hello would not go out.
    WriteFailed { stated: Option<String>, error: String },
    /// The peer said nothing within the handshake timeout.
    TimedOut,
    /// The answer would not read.
    ReadFailed { stated: Option<String>, error: String },
    /// The peer answered.
    Answered(Frame),
}

/// The session a dial gives, or why it gives none. Only a failed dial and a
/// silent peer are `Unreachable`: everything after the peer took the
/// connection is a refusal, even when it reads like a network fault.
pub fn connect_outcome(o: DialOutcome) -> (r: Result<(String, String), ConnectError>)
    ensures
        match o {
            DialOutcome::DialFailed(e) => r == Err::<(String, String), ConnectError>(ConnectError::Unreachable(e)),
            DialOutcome::OpenFailed { stated, error } => r matches Err(ConnectError::Refused(m)) && m@ == (match stated {
                Some(s) => s@,
                None => "cannot open the session stream: "@ + error@,
            }),
            DialOutcome::WriteFailed { stated, error } => r == Err::<(String, String), ConnectError>(ConnectError::Refused(match stated {
                Some(s) => s,
                None => error,
            })),
            DialOutcome::TimedOut => r matches Err(ConnectError::Unreachable(m)) && m@
                == "the peer did not answer the handshake"@,
            DialOutcome::ReadFailed { stated, error } => r == Err::<(String, String), ConnectError>(ConnectError::Refused(match stated {
                Some(s) => s,
                None => error,
            })),
            DialOutcome::Answered(ack) => match ack {
                Frame::Res(Res::Hello(a)) if a.proto == PROTO_VERSION => r matches Ok((d, s)) && d@
                    == a.device@ && s@ == a.scope@,
                _ => r matches Err(ConnectError::Refused(m)) && m@ == ack_refusal(ack),
            },
        },
{
    match o {
        DialOutcome::DialFailed(e) => Err(ConnectError::Unreachable(e)),
        DialOutcome::OpenFailed { stated, error } => {
            let mut t = own("cannot open the session stream: ");
            append(&mut t, error.as_str());
            Err(refusal(stated, t))
        },
        DialOutcome::WriteFailed { stated, error } => Err(refusal(stated, error)),
        DialOutcome::TimedOut => Err(ConnectError::Unreachable(own("the peer did not answer the handshake"))),
        DialOutcome::ReadFailed { stated, error } => Err(refusal(stated, error)),
        DialOutcome::Answered(ack) => classify_ack(ack),
    }
}


// ── The path gate ──────────────────────────────────────────────────────────

/// The wire's input hardening in front of the root gate, the deep-link
/// parser's rules: an absolute path with no NUL byte.
pub open spec fn wire_path_ok(raw: Seq<char>) -> bool {
    raw.len() > 0 && raw[0] == '/' && !raw.contains('\0')
}

/// The hardening in front of the root gate refuses exactly three things:
/// an empty path, a relative one, and one holding a NUL. Any other
/// character (a space, a quote, a non-ASCII letter) passes it and is left
/// to the root check.
pub proof fn law_the_hardening_refuses_only_relative_or_nul(raw: Seq<char>)
    ensures
        wire_path_ok(raw) <==> (raw.len() > 0 && raw[0] == '/' && forall|i: int| 0 <= i < raw.len() ==> raw[i] != '\0'),
        wire_path_ok(raw) <==> (raw.len() > 0 && raw[0] == '/' && !raw.contains('\0')),
{
    if raw.contains('\0') {
        let i = choose|i: int| 0 <= i < raw.len() && raw[i] == '\0';
        assert(raw[i] == '\0');
    }
    if !(forall|i: int| 0 <= i < raw.len() ==> raw[i] != '\0') {
        let i = choose|i: int| !(0 <= i < raw.len() ==> raw[i] != '\0');
        assert(raw.contains(raw[i]));
    }
}

pub fn wire_path_checks(raw: &str) -> (b: bool)
    ensures
        b == wire_path_ok(raw@),
{
    let v = chars_of(raw);
    if v.len() == 0 || v[0] != '/' {
        return false;
    }
    let mut i: usize = 0;
    while i < v.len()
        invariant
            i <= v.len(),
            v@ == raw@,
            forall|j: int| 0 <= j < i ==> v@[j] != '\0',
        decreases v.len() - i,
    {
        if v[i] == '\0' {
            assert(raw@[i as int] == '\0');
            return false;
        }
        i += 1;
    }
    true
}

/// `s` is one of the answers `resolve` may give for `raw`, by text.
pub open spec fn resolves_to<F: Fn(&str) -> Option<String>>(resolve: F, raw: &str, c: Seq<char>) -> bool {
    exists|o: String| #[trigger] resolve.ensures((raw,), Some(o)) && o@ == c
}

/// A resolver that gives one answer per path text: two calls on the same
/// text never disagree. The root check over a filesystem that does not
/// change while one request is served is such a resolver.
#[verifier::opaque]
pub open spec fn deterministic<F: Fn(&str) -> Option<String>>(resolve: F) -> bool {
    forall|s1: &str, s2: &str, a: Option<String>, b: Option<String>|
        s1@ == s2@ && #[trigger] resolve.ensures((s1,), a) && #[trigger] resolve.ensures((s2,), b)
            ==> crate::outbox::opt_view(a) == crate::outbox::opt_view(b)
}

proof fn lemma_refused_resolves_nothing<F: Fn(&str) -> Option<String>>(resolve: F, raw: &str, c: Seq<char>)
    requires
        deterministic(resolve),
        resolve.ensures((raw,), None::<String>),
    ensures
        !published_by(resolve, raw@, c),
        forall|o: String| !(#[trigger] resolve.ensures((raw,), Some(o))),
{
    reveal(deterministic);
    assert forall|o: String| !(#[trigger] resolve.ensures((raw,), Some(o))) by {
        if resolve.ensures((raw,), Some(o)) {
            assert(crate::outbox::opt_view(None::<String>) == crate::outbox::opt_view(Some(o)));
        }
    }
    assert forall|s: &str| s@ == raw@ implies !(#[trigger] resolves_to(resolve, s, c)) by {
        assert forall|o: String| !(#[trigger] resolve.ensures((s,), Some(o)) && o@ == c) by {
            if resolve.ensures((s,), Some(o)) {
                assert(crate::outbox::opt_view(None::<String>) == crate::outbox::opt_view(Some(o)));
            }
        }
    }
}

proof fn lemma_one_answer<F: Fn(&str) -> Option<String>>(resolve: F, raw: &str, got: String)
    requires
        deterministic(resolve),
        resolve.ensures((raw,), Some(got)),
    ensures
        forall|o: String| #[trigger] resolve.ensures((raw,), Some(o)) ==> o@ == got@,
        forall|c: Seq<char>| c != got@ ==> !(#[trigger] published_by(resolve, raw@, c)),
{
    reveal(deterministic);
    assert forall|o: String| #[trigger] resolve.ensures((raw,), Some(o)) implies o@ == got@ by {
        assert(crate::outbox::opt_view(Some(got)) == crate::outbox::opt_view(Some(o)));
    }
    assert forall|c: Seq<char>| c != got@ implies !(#[trigger] published_by(resolve, raw@, c)) by {
        assert forall|s: &str| s@ == raw@ implies !(#[trigger] resolves_to(resolve, s, c)) by {
            assert forall|o: String| !(#[trigger] resolve.ensures((s,), Some(o)) && o@ == c) by {
                if resolve.ensures((s,), Some(o)) {
                    assert(crate::outbox::opt_view(Some(got)) == crate::outbox::opt_view(Some(o)));
                }
            }
        }
    }
}

/// The root gate with the hardening in front of it. `resolve` is the root
/// check: it canonicalizes an absolute path and answers `None` for one that
/// is missing or outside the roots. Only a path that passed the hardening
/// ever reaches it, and every failure is the one refusal, so a peer cannot
/// tell a missing file from a forbidden one.
pub fn gate_raw<F: Fn(&str) -> Option<String>>(raw: &str, resolve: &F) -> (r: Result<String, String>)
    requires
        forall|s: &str| #[trigger] resolve.requires((s,)),
    ensures
        match r {
            Ok(c) => wire_path_ok(raw@) && resolve.ensures((raw,), Some(c)),
            Err(e) => e@ == DENIED@ && (!wire_path_ok(raw@) || resolve.ensures((raw,), None::<String>)),
        },
        !wire_path_ok(raw@) ==> r is Err,
        (raw@.len() > 0 && raw@[0] == '/' && !raw@.contains('\0') && r is Err) ==> resolve.ensures((raw,), None::<String>),
{
    proof {
        law_the_hardening_refuses_only_relative_or_nul(raw@);
    }
    if !wire_path_checks(raw) {
        return Err(own(DENIED));
    }
    match resolve(raw) {
        Some(c) => Ok(c),
        None => Err(own(DENIED)),
    }
}

/// Some spelling of `p` resolves.
pub open spec fn resolvable<F: Fn(&str) -> Option<String>>(resolve: F, p: Seq<char>) -> bool {
    exists|s: &str, c: String| s@ == p && #[trigger] resolve.ensures((s,), Some(c))
}

/// What `p` resolves to, for a resolver with one answer per path text.
pub open spec fn resolved_path<F: Fn(&str) -> Option<String>>(resolve: F, p: Seq<char>) -> Seq<char> {
    let (s, c) = choose|s: &str, c: String| s@ == p && #[trigger] resolve.ensures((s,), Some(c));
    c@
}

pub open spec fn tab_view(t: TabEntry) -> (Seq<char>, bool) {
    (t.path@, t.active)
}

/// What the root gate makes of one wire path text: its canonical path, or
/// `None` when the hardening or the root check refuses it.
pub open spec fn gate_answer<F: Fn(&str) -> Option<String>>(resolve: F) -> spec_fn(Seq<char>) -> Option<Seq<char>> {
    |p: Seq<char>| if wire_path_ok(p) && resolvable(resolve, p) { Some(resolved_path(resolve, p)) } else { None }
}

/// The tabs `answer` admits, in order, each with the path it answered.
pub open spec fn admitted_tabs(tabs: Seq<TabEntry>, answer: spec_fn(Seq<char>) -> Option<Seq<char>>) -> Seq<(Seq<char>, bool)>
    decreases tabs.len(),
{
    if tabs.len() == 0 {
        Seq::empty()
    } else {
        let rest = admitted_tabs(tabs.drop_last(), answer);
        match answer(tabs.last().path@) {
            Some(c) => rest.push((c, tabs.last().active)),
            None => rest,
        }
    }
}

/// The tabs that pass the hardening and the root check, in order, each with
/// its canonical path.
pub open spec fn canonical_tab_views<F: Fn(&str) -> Option<String>>(tabs: Seq<TabEntry>, resolve: F) -> Seq<(Seq<char>, bool)> {
    admitted_tabs(tabs, gate_answer(resolve))
}

proof fn lemma_resolved_is<F: Fn(&str) -> Option<String>>(resolve: F, raw: &str, got: String)
    requires
        deterministic(resolve),
        resolve.ensures((raw,), Some(got)),
    ensures
        resolvable(resolve, raw@),
        resolved_path(resolve, raw@) == got@,
{
    reveal(deterministic);
    assert(resolve.ensures((raw,), Some(got)));
    let (s, c) = choose|s: &str, c: String| s@ == raw@ && #[trigger] resolve.ensures((s,), Some(c));
    assert(crate::outbox::opt_view(Some(got)) == crate::outbox::opt_view(Some(c)));
}

proof fn lemma_unresolvable<F: Fn(&str) -> Option<String>>(resolve: F, raw: &str)
    requires
        deterministic(resolve),
        resolve.ensures((raw,), None::<String>),
    ensures
        !resolvable(resolve, raw@),
{
    reveal(deterministic);
    assert forall|s: &str, c: String| s@ == raw@ implies !(#[trigger] resolve.ensures((s,), Some(c))) by {
        if resolve.ensures((s,), Some(c)) {
            assert(crate::outbox::opt_view(None::<String>) == crate::outbox::opt_view(Some(c)));
        }
    }
}

/// Normalize a published tab list for the wire: every path gated and kept
/// in canonical form, in order. An out-of-root tab is never announced to a
/// peer, and tab identity and file-change identity are the same string.
/// Over a resolver with one answer per path, the result is exactly the
/// tabs that pass, each with its canonical path.
pub fn canonical_tabs<F: Fn(&str) -> Option<String>>(tabs: Vec<TabEntry>, resolve: &F) -> (r: Vec<TabEntry>)
    requires
        forall|s: &str| #[trigger] resolve.requires((s,)),
    ensures
        r.len() <= tabs.len(),
        forall|j: int| 0 <= j < r.len() ==> from_tab(tabs@, *resolve, #[trigger] r[j]),
        deterministic(*resolve) ==> r@.map_values(|t: TabEntry| tab_view(t)) == canonical_tab_views(tabs@, *resolve),
{
    let mut out: Vec<TabEntry> = Vec::new();
    let mut i: usize = 0;
    proof {
        assert(tabs@.take(0) =~= Seq::<TabEntry>::empty());
        assert(out@.map_values(|t: TabEntry| tab_view(t)) =~= Seq::<(Seq<char>, bool)>::empty());
    }
    while i < tabs.len()
        invariant
            i <= tabs.len(),
            out.len() <= i,
            forall|s: &str| #[trigger] resolve.requires((s,)),
            forall|j: int| 0 <= j < out.len() ==> from_tab(tabs@, *resolve, #[trigger] out[j]),
            deterministic(*resolve) ==> out@.map_values(|t: TabEntry| tab_view(t)) == canonical_tab_views(tabs@.take(i as int), *resolve),
        decreases tabs.len() - i,
    {
        proof {
            assert(tabs@.take(i + 1).drop_last() =~= tabs@.take(i as int));
            assert(tabs@.take(i + 1).last() == tabs@[i as int]);
        }
        let ghost before_views = out@.map_values(|t: TabEntry| tab_view(t));
        let t = &tabs[i];
        let raw = t.path.as_str();
        match gate_raw(raw, resolve) {
            Ok(c) => {
                proof {
                    if deterministic(*resolve) {
                        lemma_resolved_is(*resolve, raw, c);
                    }
                }
                let ghost cv = c@;
                let e = TabEntry { path: c, active: t.active };
                proof {
                    assert(resolves_to(*resolve, raw, cv));
                    assert(published_by(*resolve, tabs@[i as int].path@, cv));
                }
                let ghost before = out@;
                out.push(e);
                proof {
                    assert forall|j: int| 0 <= j < out.len() implies from_tab(tabs@, *resolve, #[trigger] out[j]) by {
                        if j < before.len() {
                            assert(out[j] == before[j]);
                        } else {
                            assert(out[j] == e);
                            assert(wire_path_ok(tabs@[i as int].path@));
                            assert(tabs@[i as int].active == e.active);
                            assert(published_by(*resolve, tabs@[i as int].path@, out[j].path@));
                        }
                    }
                    assert(out@.map_values(|t: TabEntry| tab_view(t)) =~= before_views.push((cv, tabs@[i as int].active)));
                }
            },
            Err(_) => {
                proof {
                    if deterministic(*resolve) && wire_path_ok(raw@) {
                        lemma_unresolvable(*resolve, raw);
                    }
                }
            },
        }
        i += 1;
    }
    proof {
        assert(tabs@.take(i as int) =~= tabs@);
    }
    out
}

/// `e` is one of `tabs`, its path resolved.
pub open spec fn from_tab<F: Fn(&str) -> Option<String>>(tabs: Seq<TabEntry>, resolve: F, e: TabEntry) -> bool {
    exists|k: int| 0 <= k < tabs.len() && e.active == tabs[k].active && #[trigger] published_by(resolve, tabs[k].path@, e.path@)
}

/// Some entry of `published` resolves to `c`.
pub open spec fn among_published<F: Fn(&str) -> Option<String>>(published: Seq<String>, resolve: F, c: Seq<char>) -> bool {
    exists|k: int| 0 <= k < published.len() && #[trigger] published_by(resolve, published[k]@, c)
}

/// Some wire spelling of `raw` passes the hardening and resolves to `c`.
pub open spec fn published_by<F: Fn(&str) -> Option<String>>(resolve: F, raw: Seq<char>, c: Seq<char>) -> bool {
    wire_path_ok(raw) && exists|s: &str| s@ == raw && #[trigger] resolves_to(resolve, s, c)
}

/// The full path check for one request: the root check, then for a view-open
/// peer the narrowing to what it was told about — the published tabs,
/// bookmarks and recents, each gated on the way past. The narrowing can
/// only take away from what the roots admit.
pub fn gate_for<F: Fn(&str) -> Option<String>>(scope: crate::peers::Scope, raw: &str, published: &Vec<String>, resolve: &F) -> (r: Result<String, String>)
    requires
        forall|s: &str| #[trigger] resolve.requires((s,)),
    ensures
        match r {
            Ok(c) => {
                &&& wire_path_ok(raw@)
                &&& resolve.ensures((raw,), Some(c))
                &&& scope == crate::peers::Scope::ViewOpen ==> among_published(published@, *resolve, c@)
            },
            Err(e) => e@ == DENIED@ && (deterministic(*resolve) ==> !gate_admits(scope, raw, published@, *resolve)),
        },
        !wire_path_ok(raw@) ==> r is Err,
{
    let canonical = match gate_raw(raw, resolve) {
        Ok(c) => c,
        Err(e) => {
            proof {
                if deterministic(*resolve) && wire_path_ok(raw@) {
                    lemma_refused_resolves_nothing(*resolve, raw, Seq::empty());
                }
            }
            return Err(e);
        },
    };
    match scope {
        crate::peers::Scope::ViewOpen => {
            let mut k: usize = 0;
            while k < published.len()
                invariant
                    k <= published.len(),
                    forall|s: &str| #[trigger] resolve.requires((s,)),
                    wire_path_ok(raw@),
                    resolve.ensures((raw,), Some(canonical)),
                    deterministic(*resolve) ==> forall|j: int| 0 <= j < k ==> !(#[trigger] published_by(*resolve, published@[j]@, canonical@)),
                decreases published.len() - k,
            {
                let cand = published[k].as_str();
                match gate_raw(cand, resolve) {
                    Ok(c) => {
                        if crate::order::same_text(c.as_str(), canonical.as_str()) {
                            proof {
                                assert(resolves_to(*resolve, cand, canonical@));
                                assert(published_by(*resolve, published@[k as int]@, canonical@));
                                assert(among_published(published@, *resolve, canonical@));
                            }
                            return Ok(canonical);
                        }
                        proof {
                            if deterministic(*resolve) {
                                lemma_one_answer(*resolve, cand, c);
                                assert(!published_by(*resolve, published@[k as int]@, canonical@));
                            }
                        }
                    },
                    Err(_) => {
                        proof {
                            if deterministic(*resolve) && wire_path_ok(cand@) {
                                lemma_refused_resolves_nothing(*resolve, cand, canonical@);
                            }
                            assert(deterministic(*resolve) ==> !published_by(*resolve, published@[k as int]@, canonical@));
                        }
                    },
                }
                k += 1;
            }
            proof {
                if deterministic(*resolve) {
                    lemma_one_answer(*resolve, raw, canonical);
                    assert forall|c: String| #[trigger] resolve.ensures((raw,), Some(c)) implies !among_published(published@, *resolve, c@) by {
                        assert(c@ == canonical@);
                        assert forall|j: int| 0 <= j < published@.len() implies !(#[trigger] published_by(*resolve, published@[j]@, c@)) by {
                            assert(!published_by(*resolve, published@[j]@, canonical@));
                        }
                    }
                }
            }
            Err(own(DENIED))
        },
        _ => Ok(canonical),
    }
}


/// The full path check admits `raw` for a peer of `scope`: the hardening
/// passes, and the root check gives a canonical path that, for a view-open
/// peer, is one of the published ones.
pub open spec fn gate_admits<F: Fn(&str) -> Option<String>>(scope: crate::peers::Scope, raw: &str, published: Seq<String>, resolve: F) -> bool {
    wire_path_ok(raw@) && exists|c: String| #[trigger] resolve.ensures((raw,), Some(c))
        && (scope == crate::peers::Scope::ViewOpen ==> among_published(published, resolve, c@))
}

/// `id` is a paired peer whose current scope the path check admits `raw` for.
pub open spec fn admitted_holder<F: Fn(&str) -> Option<String>>(peers: Seq<crate::peers::Peer>, id: Seq<char>, raw: &str, published: Seq<String>, resolve: F) -> bool {
    exists|k: int| 0 <= k < peers.len() && (#[trigger] peers[k]).node_id@ == id
        && gate_admits(peers[k].scope, raw, published, resolve)
}

/// The first record `peers` holds for `id` is one whose scope the path
/// check admits `raw` for.
pub open spec fn first_record_admits<F: Fn(&str) -> Option<String>>(peers: Seq<crate::peers::Peer>, id: Seq<char>, raw: &str, published: Seq<String>, resolve: F) -> bool {
    exists|k: int| 0 <= k < peers.len() && (#[trigger] peers[k]).node_id@ == id
        && (forall|j: int| 0 <= j < k ==> (#[trigger] peers[j]).node_id@ != id)
        && gate_admits(peers[k].scope, raw, published, resolve)
}

/// The entries of `hs` that `keep` keeps, in order.
pub open spec fn kept_ids(hs: Seq<Seq<char>>, keep: spec_fn(Seq<char>) -> bool) -> Seq<Seq<char>>
    decreases hs.len(),
{
    if hs.len() == 0 {
        Seq::empty()
    } else {
        let rest = kept_ids(hs.drop_last(), keep);
        if keep(hs.last()) { rest.push(hs.last()) } else { rest }
    }
}

/// The holders whose peer record the path check admits `raw` for, in
/// session order.
pub open spec fn admitted_holders<F: Fn(&str) -> Option<String>>(hs: Seq<Seq<char>>, peers: Seq<crate::peers::Peer>, raw: &str, published: Seq<String>, resolve: F) -> Seq<Seq<char>> {
    kept_ids(hs, |id: Seq<char>| first_record_admits(peers, id, raw, published, resolve))
}

proof fn lemma_first_record_refused<F: Fn(&str) -> Option<String>>(peers: Seq<crate::peers::Peer>, id: Seq<char>, k: int, raw: &str, published: Seq<String>, resolve: F)
    requires
        0 <= k < peers.len(),
        peers[k].node_id@ == id,
        forall|j: int| 0 <= j < k ==> (#[trigger] peers[j]).node_id@ != id,
        !gate_admits(peers[k].scope, raw, published, resolve),
    ensures
        !first_record_admits(peers, id, raw, published, resolve),
{
    if first_record_admits(peers, id, raw, published, resolve) {
        let k2 = choose|k2: int| 0 <= k2 < peers.len() && (#[trigger] peers[k2]).node_id@ == id
            && (forall|j: int| 0 <= j < k2 ==> (#[trigger] peers[j]).node_id@ != id)
            && gate_admits(peers[k2].scope, raw, published, resolve);
        if k2 < k {
            assert(peers[k2].node_id@ != id);
        } else if k < k2 {
            assert(peers[k].node_id@ != id);
        }
    }
}

proof fn lemma_no_record<F: Fn(&str) -> Option<String>>(peers: Seq<crate::peers::Peer>, id: Seq<char>, raw: &str, published: Seq<String>, resolve: F)
    requires
        forall|k: int| 0 <= k < peers.len() ==> (#[trigger] peers[k]).node_id@ != id,
    ensures
        !first_record_admits(peers, id, raw, published, resolve),
{
}

proof fn lemma_kept_step(hs: Seq<Seq<char>>, i: int, keep: spec_fn(Seq<char>) -> bool)
    requires
        0 <= i < hs.len(),
    ensures
        kept_ids(hs.take(i + 1), keep) == if keep(hs[i]) {
            kept_ids(hs.take(i), keep).push(hs[i])
        } else {
            kept_ids(hs.take(i), keep)
        },
{
    assert(hs.take(i + 1).drop_last() =~= hs.take(i));
    assert(hs.take(i + 1).last() == hs[i]);
}

fn find_peer(peers: &Vec<crate::peers::Peer>, id: &str) -> (r: Option<usize>)
    ensures
        match r {
            Some(k) => k < peers.len() && peers@[k as int].node_id@ == id@
                && forall|j: int| 0 <= j < k ==> (#[trigger] peers@[j]).node_id@ != id@,
            None => forall|k: int| 0 <= k < peers.len() ==> (#[trigger] peers@[k]).node_id@ != id@,
        },
{
    let mut k: usize = 0;
    while k < peers.len()
        invariant
            k <= peers.len(),
            forall|j: int| 0 <= j < k ==> (#[trigger] peers@[j]).node_id@ != id@,
        decreases peers.len() - k,
    {
        if same_text(peers[k].node_id.as_str(), id) {
            return Some(k);
        }
        k += 1;
    }
    None
}

/// The peers a changed file is re-staged and announced for: the holders of
/// sessions that fetched it, each gated again against its current scope.
/// The interest set only grows, so a view-open peer that closed the tab
/// still holds the path; the second gate is what stops it from learning
/// the new content address. A holder with no peer record gets nothing.
/// Over a resolver with one answer per path, the result is exactly the
/// holders whose first peer record the path check admits, in order.
#[verifier::spinoff_prover]
#[verifier::rlimit(40)]
pub fn peers_holding<F: Fn(&str) -> Option<String>>(
    sessions: &crate::sessions::Sessions,
    path: &str,
    peers: &Vec<crate::peers::Peer>,
    published: &Vec<String>,
    resolve: &F,
) -> (r: Vec<String>)
    requires
        forall|s: &str| #[trigger] resolve.requires((s,)),
    ensures
        r.len() <= crate::sessions::holder_peers(sessions.entries(), path@).len(),
        forall|j: int| 0 <= j < r.len() ==> crate::sessions::holder_peers(sessions.entries(), path@).contains(#[trigger] r[j]@),
        forall|j: int| 0 <= j < r.len() ==> admitted_holder(peers@, (#[trigger] r[j])@, path, published@, *resolve),
        deterministic(*resolve) ==> views(r@) == admitted_holders(
            crate::sessions::holder_peers(sessions.entries(), path@), peers@, path, published@, *resolve),
{
    let holders = sessions.holders(path);
    let ghost hv = crate::sessions::holder_peers(sessions.entries(), path@);
    let ghost keep = |id: Seq<char>| first_record_admits(peers@, id, path, published@, *resolve);
    let mut out: Vec<String> = Vec::new();
    let mut i: usize = 0;
    proof {
        assert(hv.take(0) =~= Seq::<Seq<char>>::empty());
        assert(views(out@) =~= Seq::<Seq<char>>::empty());
    }
    while i < holders.len()
        invariant
            i <= holders.len(),
            views(holders@) == hv,
            out.len() <= i,
            forall|s: &str| #[trigger] resolve.requires((s,)),
            forall|j: int| 0 <= j < out.len() ==> hv.contains(#[trigger] out[j]@),
            forall|j: int| 0 <= j < out.len() ==> admitted_holder(peers@, (#[trigger] out[j])@, path, published@, *resolve),
            forall|id: Seq<char>| #[trigger] keep(id) == first_record_admits(peers@, id, path, published@, *resolve),
            deterministic(*resolve) ==> views(out@) == kept_ids(hv.take(i as int), keep),
        decreases holders.len() - i,
    {
        proof {
            lemma_kept_step(hv, i as int, keep);
        }
        let ghost before_views = views(out@);
        let p = holders[i].as_str();
        proof {
            assert(hv[i as int] == p@);
        }
        match find_peer(peers, p) {
            Some(k) => {
                match gate_for(peers[k].scope, path, published, resolve) {
                    Ok(_) => {
                        let q = own(p);
                        proof {
                            assert(hv[i as int] == q@);
                            assert(gate_admits(peers@[k as int].scope, path, published@, *resolve));
                            assert(admitted_holder(peers@, q@, path, published@, *resolve));
                            assert(first_record_admits(peers@, q@, path, published@, *resolve));
                            assert(keep(q@));
                        }
                        let ghost before = out@;
                        out.push(q);
                        proof {
                            assert(views(out@) =~= before_views.push(q@));
                            assert forall|j: int| 0 <= j < out.len() implies hv.contains(#[trigger] out[j]@) by {
                                if j < before.len() {
                                    assert(out[j] == before[j]);
                                } else {
                                    assert(hv[i as int] == out[j]@);
                                }
                            }
                            assert forall|j: int| 0 <= j < out.len() implies admitted_holder(peers@, (#[trigger] out[j])@, path, published@, *resolve) by {
                                if j < before.len() {
                                    assert(out[j] == before[j]);
                                }
                            }
                        }
                    },
                    Err(_) => {
                        proof {
                            if deterministic(*resolve) {
                                lemma_first_record_refused(peers@, p@, k as int, path, published@, *resolve);
                            }
                        }
                    },
                }
            },
            None => {
                proof {
                    lemma_no_record(peers@, p@, path, published@, *resolve);
                }
            },
        }
        i += 1;
    }
    proof {
        assert(hv.take(i as int) =~= hv);
        assert(keep =~= (|id: Seq<char>| first_record_admits(peers@, id, path, published@, *resolve)));
    }
    out
}


// ── The host's handshake ───────────────────────────────────────────────────

/// How the host ends a connection it will not serve: the refusal it writes
/// first, when it writes one, the close reason the peer reads, and the
/// error it logs.
#[derive(Debug, PartialEq, Eq)]
pub struct Refusal {
    pub reply: Option<String>,
    pub close: Option<String>,
    pub error: String,
}

pub open spec fn refusal_of(r: Refusal, reply: Option<Seq<char>>, close: Option<Seq<char>>, error: Seq<char>) -> bool {
    &&& match r.reply {
        Some(t) => reply == Some(t@),
        None => reply is None,
    }
    &&& match r.close {
        Some(t) => close == Some(t@),
        None => close is None,
    }
    &&& r.error@ == error
}

fn refuse(reply: Option<&str>, close: Option<&str>, error: &str) -> (r: Refusal)
    ensures
        refusal_of(r, match reply { Some(t) => Some(t@), None => None }, match close { Some(t) => Some(t@), None => None }, error@),
{
    Refusal {
        reply: match reply {
            Some(t) => Some(own(t)),
            None => None,
        },
        close: match close {
            Some(t) => Some(own(t)),
            None => None,
        },
        error: own(error),
    }
}

/// A node id that is not in the peer list: refused before a single request
/// byte is parsed.
pub fn not_paired() -> (r: Refusal)
    ensures
        refusal_of(r, None, Some("not a paired peer"@), "not a paired peer"@),
{
    refuse(None, Some("not a paired peer"), "not a paired peer")
}

/// What reading the first frame gave.
pub enum HelloRead {
    TimedOut,
    Failed(String),
    Got(Req),
}

/// The handshake's first answer: the device name a current `Hello`
/// announces, sanitized like every name from the wire, or the refusal.
/// Version first, everything else after.
pub fn on_hello(read: HelloRead) -> (r: Result<String, Refusal>)
    ensures
        match read {
            HelloRead::TimedOut => r matches Err(x) && refusal_of(x, None, None, "handshake timed out"@),
            HelloRead::Failed(e) => r matches Err(x) && refusal_of(x, None, None, e@),
            HelloRead::Got(Req::Hello { proto, device }) => if proto == PROTO_VERSION {
                r matches Ok(d) && d@ == crate::proto::sanitized_device(device@)
            } else {
                r matches Err(x) && refusal_of(x, Some("unsupported protocol version"@), Some("protocol version"@), "unsupported protocol version"@)
            },
            HelloRead::Got(_) => r matches Err(x) && refusal_of(x, None, Some("expected hello"@), "expected hello"@),
        },
{
    match read {
        HelloRead::TimedOut => Err(refuse(None, None, "handshake timed out")),
        HelloRead::Failed(e) => Err(Refusal { reply: None, close: None, error: e }),
        HelloRead::Got(Req::Hello { proto, device }) => {
            if proto == PROTO_VERSION {
                Ok(crate::proto::sanitize_device(device.as_str()))
            } else {
                Err(refuse(Some("unsupported protocol version"), Some("protocol version"), "unsupported protocol version"))
            }
        },
        HelloRead::Got(_) => Err(refuse(None, Some("expected hello"), "expected hello")),
    }
}

/// What refreshing the stored device name did.
pub enum RefreshOutcome {
    Refreshed,
    /// The peer is gone: revoked while its hello was in flight.
    Gone,
    /// The write failed; the peer list still holds the peer.
    Failed(String),
}

/// After the name refresh: a peer revoked inside the handshake window is
/// refused rather than handed a session, and a failed write is logged but
/// drops nothing the allowlist already admitted. `Ok` carries the line to
/// log, if any.
pub fn after_refresh(o: RefreshOutcome) -> (r: Result<Option<String>, Refusal>)
    ensures
        match o {
            RefreshOutcome::Refreshed => r matches Ok(None),
            RefreshOutcome::Gone => r matches Err(x) && refusal_of(x, None, Some("not a paired peer"@), "peer was revoked during the handshake"@),
            RefreshOutcome::Failed(e) => r matches Ok(Some(m)) && m@ == "vlerv: remote: cannot persist peers.json: "@ + e@,
        },
{
    match o {
        RefreshOutcome::Refreshed => Ok(None),
        RefreshOutcome::Gone => Err(refuse(None, Some("not a paired peer"), "peer was revoked during the handshake")),
        RefreshOutcome::Failed(e) => {
            let mut m = own("vlerv: remote: cannot persist peers.json: ");
            append(&mut m, e.as_str());
            Ok(Some(m))
        },
    }
}

/// Registering the session: past the per-peer cap the connection closes.
pub fn after_register(r: Result<u64, String>) -> (out: Result<u64, Refusal>)
    ensures
        match r {
            Ok(id) => out == Ok::<u64, Refusal>(id),
            Err(e) => out matches Err(x) && refusal_of(x, None, Some("session cap"@), e@),
        },
{
    match r {
        Ok(id) => Ok(id),
        Err(e) => Err(Refusal { reply: None, close: Some(own("session cap")), error: e }),
    }
}

/// The acknowledgment a served session opens with, and the signal that
/// announces the peer. Both come only after everything that can still
/// refuse the connection has run, so a host acting on the signal acts on a
/// peer that holds a session. The scope is what THIS host grants.
pub fn welcome(peer: &crate::peers::Peer, device: String, this_device: &str) -> (r: (Frame, crate::host::HostSignal))
    ensures
        r.0 matches Frame::Res(Res::Hello(a)) && a.proto == PROTO_VERSION && a.device@ == this_device@
            && a.scope@ == crate::peers::scope_text(peer.scope),
        r.1 matches crate::host::HostSignal::PeerConnected { peer: p, device: d, scope: s } && p@ == peer.node_id@
            && d@ == device@ && s@ == crate::peers::scope_text(peer.scope),
{
    let ack = Frame::Res(Res::Hello(HelloAck {
        proto: PROTO_VERSION,
        device: own(this_device),
        scope: own(peer.scope.as_str()),
    }));
    let signal = crate::host::HostSignal::PeerConnected {
        peer: own(peer.node_id.as_str()),
        device,
        scope: own(peer.scope.as_str()),
    };
    (ack, signal)
}

// ── The handshake as a state machine ───────────────────────────────────────

/// Where one incoming connection's handshake stands.
pub enum Handshake {
    /// Nothing looked at yet.
    Start,
    /// The peer list admitted the node id; its hello is awaited.
    AwaitHello { peer: crate::peers::Peer },
    /// A current hello announced this device name.
    Hello { peer: crate::peers::Peer, device: String },
    /// The stored name was refreshed and the peer is still paired.
    Refreshed { peer: crate::peers::Peer, device: String },
    /// The session is registered and its ack is being queued; the signal
    /// waits for that.
    Acked { signal: crate::host::HostSignal, session: u64 },
    /// The ack is queued and the peer announced: requests are served.
    Serving { session: u64 },
    /// Refused.
    Closed,
}

/// What the shell reports back to the handshake.
pub enum HandshakeEvent {
    /// The peer list's record for the connecting node id.
    Looked(Option<crate::peers::Peer>),
    /// Reading the first frame.
    Read(HelloRead),
    /// Refreshing the stored device name.
    Refresh(RefreshOutcome),
    /// Registering the session.
    Registered(Result<u64, String>),
    /// The ack is queued on the session's writer.
    AckQueued,
}

/// What the shell does next.
pub enum HandshakeAction {
    /// End the connection this way.
    Refuse(Refusal),
    /// Accept the stream and read the hello.
    AcceptStream,
    /// Write this device name over the stored one.
    RefreshName(String),
    /// Register a session, after logging the line given, if any.
    Register { log: Option<String> },
    /// Queue this ack on the session's writer.
    SendAck(Frame),
    /// Emit this signal, then serve requests.
    Announce(crate::host::HostSignal),
    /// The event does not fit this stage: nothing to do.
    Ignore,
}

/// How far a handshake has come.
pub open spec fn stage(h: Handshake) -> nat {
    match h {
        Handshake::Start => 0,
        Handshake::AwaitHello { .. } => 1,
        Handshake::Hello { .. } => 2,
        Handshake::Refreshed { .. } => 3,
        Handshake::Acked { .. } => 4,
        Handshake::Serving { .. } => 5,
        Handshake::Closed => 6,
    }
}

/// The stage an action moves a handshake into: accepting the stream, the
/// refresh, the registration, the ack and the announcement, in that order.
pub open spec fn action_stage(a: HandshakeAction) -> nat {
    match a {
        HandshakeAction::AcceptStream => 1,
        HandshakeAction::RefreshName(_) => 2,
        HandshakeAction::Register { .. } => 3,
        HandshakeAction::SendAck(_) => 4,
        HandshakeAction::Announce(_) => 5,
        _ => 0,
    }
}

/// One step: the next stage with that stage's action, a refusal that ends
/// an open handshake, or an event that does not fit, ignored.
pub open spec fn handshake_moves(s: Handshake, a: HandshakeAction, t: Handshake) -> bool {
    ||| a is Ignore && t == s
    ||| a is Refuse && t is Closed && stage(s) < 5
    ||| 1 <= action_stage(a) <= 5 && stage(t) == stage(s) + 1 && action_stage(a) == stage(t)
}

/// One handshake step.
pub fn handshake_step(state: Handshake, event: HandshakeEvent, this_device: &str) -> (r: (Handshake, HandshakeAction))
    ensures
        handshake_moves(state, r.1, r.0),
        (r.1 is AcceptStream) <==> (state is Start && (event matches HandshakeEvent::Looked(Some(_)))),
        (state is Start && (event matches HandshakeEvent::Looked(None))) ==> (r.1 matches HandshakeAction::Refuse(x)
            && refusal_of(x, None, Some("not a paired peer"@), "not a paired peer"@)),
        state is Start ==> match event {
            HandshakeEvent::Looked(Some(p)) => r.0 == (Handshake::AwaitHello { peer: p }),
            _ => true,
        },
        r.1 matches HandshakeAction::RefreshName(d) ==> ({
            &&& state matches Handshake::AwaitHello { peer }
            &&& r.0 matches Handshake::Hello { peer: p2, device: d2 }
            &&& p2 == peer
            &&& d2@ == d@
            &&& event matches HandshakeEvent::Read(HelloRead::Got(Req::Hello { proto, device }))
            &&& proto == PROTO_VERSION
            &&& d@ == crate::proto::sanitized_device(device@)
        }),
        r.1 is Register ==> ({
            &&& state matches Handshake::Hello { peer, device }
            &&& r.0 == (Handshake::Refreshed { peer, device })
            &&& event matches HandshakeEvent::Refresh(o)
            &&& !(o is Gone)
        }),
        r.1 matches HandshakeAction::SendAck(f) ==> ({
            &&& state matches Handshake::Refreshed { peer, device }
            &&& event matches HandshakeEvent::Registered(Ok(id))
            &&& f matches Frame::Res(Res::Hello(a))
            &&& a.proto == PROTO_VERSION
            &&& a.device@ == this_device@
            &&& a.scope@ == crate::peers::scope_text(peer.scope)
            &&& r.0 matches Handshake::Acked { signal, session }
            &&& session == id
            &&& signal matches crate::host::HostSignal::PeerConnected { peer: p, device: d, scope: sc }
            &&& p@ == peer.node_id@
            &&& d@ == device@
            &&& sc@ == crate::peers::scope_text(peer.scope)
        }),
        r.1 matches HandshakeAction::Announce(sig) ==> ({
            &&& state matches Handshake::Acked { signal, session }
            &&& sig == signal
            &&& event is AckQueued
            &&& r.0 == (Handshake::Serving { session })
        }),
{
    match state {
        Handshake::Start => match event {
            HandshakeEvent::Looked(None) => (Handshake::Closed, HandshakeAction::Refuse(not_paired())),
            HandshakeEvent::Looked(Some(p)) => (Handshake::AwaitHello { peer: p }, HandshakeAction::AcceptStream),
            other => (Handshake::Start, HandshakeAction::Ignore),
        },
        Handshake::AwaitHello { peer } => match event {
            HandshakeEvent::Read(h) => match on_hello(h) {
                Ok(d) => {
                    let name = own(d.as_str());
                    (Handshake::Hello { peer, device: d }, HandshakeAction::RefreshName(name))
                },
                Err(x) => (Handshake::Closed, HandshakeAction::Refuse(x)),
            },
            other => (Handshake::AwaitHello { peer }, HandshakeAction::Ignore),
        },
        Handshake::Hello { peer, device } => match event {
            HandshakeEvent::Refresh(o) => {
                let ghost gone = o is Gone;
                match after_refresh(o) {
                    Ok(log) => (Handshake::Refreshed { peer, device }, HandshakeAction::Register { log }),
                    Err(x) => (Handshake::Closed, HandshakeAction::Refuse(x)),
                }
            },
            other => (Handshake::Hello { peer, device }, HandshakeAction::Ignore),
        },
        Handshake::Refreshed { peer, device } => match event {
            HandshakeEvent::Registered(reg) => match after_register(reg) {
                Ok(id) => {
                    let (ack, signal) = welcome(&peer, device, this_device);
                    (Handshake::Acked { signal, session: id }, HandshakeAction::SendAck(ack))
                },
                Err(x) => (Handshake::Closed, HandshakeAction::Refuse(x)),
            },
            other => (Handshake::Refreshed { peer, device }, HandshakeAction::Ignore),
        },
        Handshake::Acked { signal, session } => match event {
            HandshakeEvent::AckQueued => (Handshake::Serving { session }, HandshakeAction::Announce(signal)),
            other => (Handshake::Acked { signal, session }, HandshakeAction::Ignore),
        },
        Handshake::Serving { session } => (Handshake::Serving { session }, HandshakeAction::Ignore),
        Handshake::Closed => (Handshake::Closed, HandshakeAction::Ignore),
    }
}

/// Among the first `k` actions, one moved a handshake to stage `l`.
pub open spec fn stage_seen(actions: Seq<HandshakeAction>, k: int, l: nat) -> bool {
    exists|j: int| 0 <= j < k && action_stage(#[trigger] actions[j]) == l
}

/// However the events of one connection come, the handshake's actions come
/// in one order: a stream is accepted only after the peer list admitted the
/// node id, the name is refreshed only after that, a session is registered
/// only after the refresh, the ack is queued only after the registration,
/// and the peer is announced only after the ack, so a host acting on the
/// announcement acts on a peer that holds a session. Stated over any run of
/// steps from `Start`: every action that moves a handshake to a stage comes
/// after one action for each stage before it.
pub proof fn law_the_handshake_announces_last(states: Seq<Handshake>, actions: Seq<HandshakeAction>, k: int, l: nat)
    requires
        states.len() == actions.len() + 1,
        states[0] is Start,
        forall|i: int| 0 <= i < actions.len() ==> handshake_moves(#[trigger] states[i], actions[i], states[i + 1]),
        0 <= k < actions.len(),
        1 <= l < action_stage(actions[k]),
    ensures
        stage_seen(actions, k, l),
{
    lemma_handshake_prefix(states, actions, k);
    assert(stage(states[k]) + 1 == action_stage(actions[k]));
}

proof fn lemma_handshake_prefix(states: Seq<Handshake>, actions: Seq<HandshakeAction>, k: int)
    requires
        states.len() == actions.len() + 1,
        states[0] is Start,
        forall|i: int| 0 <= i < actions.len() ==> handshake_moves(#[trigger] states[i], actions[i], states[i + 1]),
        0 <= k <= actions.len(),
    ensures
        stage(states[k]) <= 5 ==> forall|l: nat| 1 <= l <= stage(states[k]) ==> #[trigger] stage_seen(actions, k, l),
    decreases k,
{
    if k > 0 {
        lemma_handshake_prefix(states, actions, k - 1);
        assert(handshake_moves(states[k - 1], actions[k - 1], states[k]));
        if stage(states[k]) <= 5 {
            assert forall|l: nat| 1 <= l <= stage(states[k]) implies #[trigger] stage_seen(actions, k, l) by {
                if l == stage(states[k]) && stage(states[k]) == stage(states[k - 1]) + 1 {
                    assert(action_stage(actions[k - 1]) == l);
                } else {
                    assert(l <= stage(states[k - 1]));
                    assert(stage_seen(actions, k - 1, l));
                    let j = choose|j: int| 0 <= j < k - 1 && action_stage(#[trigger] actions[j]) == l;
                    assert(action_stage(actions[j]) == l);
                }
            }
        }
    }
}

// ── The host's requests ────────────────────────────────────────────────────

/// Where one request goes once its verb passed the scope filter.
#[derive(Debug, PartialEq, Eq)]
pub enum Route {
    /// Answered from the request alone.
    Reply(Res),
    Tabs,
    Bookmarks,
    Recents,
    /// Gate this path, then list it.
    Tree(String),
    /// Gate this path, then stage it for the asking peer.
    Artifact(String),
    /// Turn this session's events on or off, then answer `Subscribed`.
    Subscribe(bool),
    /// Gate this path, then hand it to the application.
    Open { path: String, reader_mode: bool },
    /// Pull the pushed bytes with this ticket, already checked.
    Pull { name: String, size: u64, hash: String, ticket: String },
}

pub open spec fn denied(r: Route, text: Seq<char>) -> bool {
    r matches Route::Reply(Res::Denied(m)) && m@ == text
}

/// One request from a served peer, routed. The scope filter runs first,
/// before any path touches the disk; a second hello is a protocol error
/// answered as a refusal; a push is refused early when its announced size
/// is over the cap or its ticket is not peer-locked to `peer_id` and the
/// announced content.
pub fn route(peer: &crate::peers::Peer, peer_id: &str, req: Req) -> (r: Route)
    ensures
        !crate::peers::scope_allows(peer.scope, req) ==> denied(r, "not permitted for this peer"@),
        (req is OpenOnHost || req is PushArtifact) && peer.scope != crate::peers::Scope::Control
            ==> denied(r, "not permitted for this peer"@),
        req is ListTree && peer.scope == crate::peers::Scope::ViewOpen ==> denied(r, "not permitted for this peer"@),
        crate::peers::scope_allows(peer.scope, req) ==> match req {
            Req::Hello { .. } => denied(r, "session already established"@),
            Req::ListTabs => r is Tabs,
            Req::ListBookmarks => r is Bookmarks,
            Req::ListRecents => r is Recents,
            Req::ListTree { path } => r == Route::Tree(path),
            Req::GetArtifact { path } => r == Route::Artifact(path),
            Req::Subscribe => r == Route::Subscribe(true),
            Req::Unsubscribe => r == Route::Subscribe(false),
            Req::OpenOnHost { path, reader_mode } => r == (Route::Open { path, reader_mode }),
            Req::PushArtifact { name, size, hash, ticket } => if size > crate::beam::HARD_CAP_BYTES {
                denied(r, "artifact exceeds the transfer size cap"@)
            } else {
                match crate::beam::push_ticket_verdict(ticket@, peer_id@, hash@) {
                    Err(e) => denied(r, e),
                    Ok(_) => r == (Route::Pull { name, size, hash, ticket }),
                }
            },
        },
{
    if !peer.scope.allows(&req) {
        return Route::Reply(Res::Denied(own("not permitted for this peer")));
    }
    match req {
        Req::Hello { .. } => Route::Reply(Res::Denied(own("session already established"))),
        Req::ListTabs => Route::Tabs,
        Req::ListBookmarks => Route::Bookmarks,
        Req::ListRecents => Route::Recents,
        Req::ListTree { path } => Route::Tree(path),
        Req::GetArtifact { path } => Route::Artifact(path),
        Req::Subscribe => Route::Subscribe(true),
        Req::Unsubscribe => Route::Subscribe(false),
        Req::OpenOnHost { path, reader_mode } => Route::Open { path, reader_mode },
        Req::PushArtifact { name, size, hash, ticket } => {
            if size > crate::beam::HARD_CAP_BYTES {
                return Route::Reply(Res::Denied(own("artifact exceeds the transfer size cap")));
            }
            match crate::beam::verify_push_ticket(ticket.as_str(), peer_id, hash.as_str()) {
                Err(e) => Route::Reply(Res::Denied(e)),
                Ok(_) => Route::Pull { name, size, hash, ticket },
            }
        },
    }
}

/// Whether a gated path may be served as an artifact: a regular file under
/// the transfer cap. Everything else reads as the one refusal, or the cap's.
pub fn artifact_checks(is_file: bool, len: u64) -> (r: Result<(), String>)
    ensures
        !is_file ==> (r matches Err(e) && e@ == DENIED@),
        is_file && len > crate::beam::HARD_CAP_BYTES ==> (r matches Err(e) && e@ == "artifact exceeds the transfer size cap"@),
        is_file && len <= crate::beam::HARD_CAP_BYTES ==> r is Ok,
{
    if !is_file {
        return Err(own(DENIED));
    }
    if len > crate::beam::HARD_CAP_BYTES {
        return Err(own("artifact exceeds the transfer size cap"));
    }
    Ok(())
}

/// The answer to `GetArtifact` once the file is staged.
pub fn artifact_meta(hash: String, len: u64, mtime: u64) -> (m: ArtifactMeta)
    ensures
        m == (ArtifactMeta { hash, size: len, mtime, warn: len > crate::beam::WARN_BYTES }),
{
    ArtifactMeta { hash, size: len, mtime, warn: len > crate::beam::WARN_BYTES }
}

/// A bookmark or recent as the wire lists it: its canonical path and its
/// file name, empty when the path has none.
pub fn path_entry(canonical: String) -> (e: PathEntry)
    ensures
        e.path == canonical,
        e.name@ == match crate::paths::file_name(canonical@) {
            Some(n) => n,
            None => Seq::empty(),
        },
{
    let name = match crate::paths::base_name(canonical.as_str()) {
        Some(n) => n,
        None => String::new(),
    };
    PathEntry { path: canonical, name }
}

/// The name a pushed artifact landed under: the one ON DISK, since
/// collision handling may have renamed it, or the announced one when the
/// path has none.
pub fn landed_name(path: &str, announced: String) -> (r: String)
    ensures
        r@ == match crate::paths::file_name(path@) {
            Some(n) => n,
            None => announced@,
        },
{
    match crate::paths::base_name(path) {
        Some(n) => n,
        None => announced,
    }
}

// ── Pairing ────────────────────────────────────────────────────────────────

/// The pairing door's first check: a hello of another version is refused
/// before the token is looked at.
pub fn pair_version_check(proto: u32) -> (r: Option<PairAck>)
    ensures
        proto == PROTO_VERSION ==> r is None,
        proto != PROTO_VERSION ==> (r matches Some(PairAck::Denied(m)) && m@ == "unsupported protocol version"@),
{
    if proto == PROTO_VERSION {
        None
    } else {
        Some(PairAck::Denied(own("unsupported protocol version")))
    }
}

/// The pairing answer once the token was tried. Unknown, expired and used
/// tokens are one refusal. Accepted, it carries this host's name, and the
/// second half is the guest's name, sanitized, for the pending pairing.
pub fn pair_answer(consumed: bool, device: &str, this_device: &str) -> (r: (PairAck, Option<String>))
    ensures
        consumed ==> (r.0 matches PairAck::Accepted { proto, device: d } && proto == PROTO_VERSION && d@ == this_device@),
        consumed ==> (r.1 matches Some(g) && g@ == crate::proto::sanitized_device(device@)),
        !consumed ==> (r.0 matches PairAck::Denied(m) && m@ == "pairing is not open on this machine"@),
        !consumed ==> r.1 is None,
{
    if consumed {
        (PairAck::Accepted { proto: PROTO_VERSION, device: own(this_device) }, Some(crate::proto::sanitize_device(device)))
    } else {
        (PairAck::Denied(own("pairing is not open on this machine")), None)
    }
}

/// The guest's reading of the pairing answer: the host's name, sanitized,
/// or why there is no pairing.
pub fn pair_reply(ack: PairAck) -> (r: Result<String, String>)
    ensures
        match ack {
            PairAck::Accepted { proto, device } => if proto == PROTO_VERSION {
                r matches Ok(d) && d@ == crate::proto::sanitized_device(device@)
            } else {
                r matches Err(e) && e@ == "unsupported protocol version"@
            },
            PairAck::Denied(reason) => r == Err::<String, String>(reason),
        },
{
    match ack {
        PairAck::Accepted { proto, device } => {
            if proto == PROTO_VERSION {
                Ok(crate::proto::sanitize_device(device.as_str()))
            } else {
                Err(own("unsupported protocol version"))
            }
        },
        PairAck::Denied(reason) => Err(reason),
    }
}


// ── Directory listings ──────────────────────────────────────────────────────

/// One directory child as the filesystem reported it: its type, when the
/// type could be read, as (is a symlink, is a directory).
pub struct RawEntry {
    pub name: String,
    pub path: String,
    pub kind: Option<(bool, bool)>,
}

/// The walker's policy: default-ignored names out, unreadable types out,
/// symlinks out, hidden directories out, hidden files in.
pub open spec fn tree_admits(e: RawEntry) -> bool {
    &&& !crate::paths::default_ignored(e.name@)
    &&& e.kind matches Some((symlink, dir)) && !symlink && !(dir && e.name@.len() > 0 && e.name@[0] == '.')
}

pub open spec fn tree_entry_of(e: RawEntry) -> TreeEntry {
    TreeEntry { name: e.name, path: e.path, is_dir: match e.kind { Some((_, d)) => d, None => false } }
}

/// The admitted children, in listing order, up to the cap.
pub open spec fn admitted(raw: Seq<RawEntry>) -> Seq<TreeEntry>
    decreases raw.len(),
{
    if raw.len() == 0 {
        Seq::empty()
    } else {
        let r = admitted(raw.drop_last());
        if r.len() >= MAX_TREE_ENTRIES || !tree_admits(raw.last()) { r } else { r.push(tree_entry_of(raw.last())) }
    }
}

/// Directories before files, then by name.
pub open spec fn tree_lt(a: TreeEntry, b: TreeEntry) -> bool {
    (a.is_dir && !b.is_dir) || (a.is_dir == b.is_dir && crate::order::seq_lt(a.name@, b.name@))
}

pub open spec fn tree_sorted(s: Seq<TreeEntry>) -> bool {
    forall|i: int, j: int| 0 <= i < j < s.len() ==> !tree_lt(#[trigger] s[j], #[trigger] s[i])
}

proof fn lemma_tree_lt(a: TreeEntry, b: TreeEntry, c: TreeEntry)
    ensures
        tree_lt(a, b) && tree_lt(b, c) ==> tree_lt(a, c),
        !tree_lt(a, a),
{
    crate::order::lemma_lt_transitive(a.name@, b.name@, c.name@);
    crate::order::lemma_lt_irreflexive(a.name@);
}

fn tree_before(a: &TreeEntry, b: &TreeEntry) -> (r: bool)
    ensures
        r == tree_lt(*a, *b),
{
    if a.is_dir != b.is_dir {
        return a.is_dir;
    }
    match crate::order::compare_str(a.name.as_str(), b.name.as_str()) {
        crate::order::Rank::Less => true,
        _ => false,
    }
}

fn sort_tree(v: Vec<TreeEntry>) -> (r: Vec<TreeEntry>)
    ensures
        r@.to_multiset() == v@.to_multiset(),
        tree_sorted(r@),
{
    broadcast use vstd::seq_lib::to_multiset_insert, vstd::seq_lib::to_multiset_remove;
    let mut rest = v;
    let ghost orig = rest@;
    let mut out: Vec<TreeEntry> = Vec::new();
    let ghost mut k: int = 0;
    assert(orig.take(0) =~= Seq::<TreeEntry>::empty());
    assert(rest@ =~= orig.skip(0));
    while rest.len() > 0
        invariant
            0 <= k <= orig.len(),
            rest@ == orig.skip(k),
            out@.to_multiset() == orig.take(k).to_multiset(),
            tree_sorted(out@),
        decreases rest.len(),
    {
        let e = rest.remove(0);
        proof {
            assert(e == orig[k]);
            assert(rest@ =~= orig.skip(k + 1));
            assert(orig.take(k + 1) =~= orig.take(k).push(e));
            vstd::seq_lib::to_multiset_build(orig.take(k), e);
        }
        let mut pos: usize = 0;
        while pos < out.len() && !tree_before(&e, &out[pos])
            invariant
                pos <= out.len(),
                forall|m: int| 0 <= m < pos ==> !tree_lt(e, #[trigger] out@[m]),
            decreases out.len() - pos,
        {
            pos += 1;
        }
        let ghost before = out@;
        out.insert(pos, e);
        proof {
            assert(out@ =~= before.insert(pos as int, e));
            vstd::seq_lib::to_multiset_insert(before, pos as int, e);
            assert forall|i: int, j: int| 0 <= i < j < out@.len() implies !tree_lt(#[trigger] out@[j], #[trigger] out@[i]) by {
                if j < pos {
                    assert(out@[i] == before[i] && out@[j] == before[j]);
                } else if j == pos {
                    assert(out@[i] == before[i]);
                } else if i < pos {
                    assert(out@[i] == before[i] && out@[j] == before[j - 1]);
                } else if i == pos {
                    assert(out@[j] == before[j - 1]);
                    assert(tree_lt(e, before[pos as int]));
                    lemma_tree_lt(before[j - 1], e, before[pos as int]);
                    lemma_tree_lt(before[pos as int], e, e);
                    if pos < j - 1 {
                        assert(!tree_lt(before[j - 1], before[pos as int]));
                    }
                } else {
                    assert(out@[i] == before[i - 1] && out@[j] == before[j - 1]);
                }
            }
            k = k + 1;
        }
    }
    proof {
        assert(orig.take(k) =~= orig);
    }
    out
}

/// A depth-one directory listing under the walker's policy, capped at
/// `MAX_TREE_ENTRIES`: the admitted children, directories first, then by
/// name.
pub fn list_tree(raw: Vec<RawEntry>) -> (r: Vec<TreeEntry>)
    ensures
        r@.len() <= MAX_TREE_ENTRIES,
        r@.to_multiset() == admitted(raw@).to_multiset(),
        tree_sorted(r@),
{
    let mut rest = raw;
    let ghost orig = rest@;
    let mut kept: Vec<TreeEntry> = Vec::new();
    let ghost mut k: int = 0;
    assert(orig.take(0) =~= Seq::<RawEntry>::empty());
    assert(rest@ =~= orig.skip(0));
    while rest.len() > 0
        invariant
            0 <= k <= orig.len(),
            rest@ == orig.skip(k),
            kept@ == admitted(orig.take(k)),
            kept@.len() <= MAX_TREE_ENTRIES,
        decreases rest.len(),
    {
        let e = rest.remove(0);
        proof {
            assert(e == orig[k]);
            assert(rest@ =~= orig.skip(k + 1));
            assert(orig.take(k + 1).drop_last() =~= orig.take(k));
            assert(orig.take(k + 1).last() == e);
        }
        if kept.len() < MAX_TREE_ENTRIES && !crate::paths::is_default_ignored(e.name.as_str()) {
            match e.kind {
                Some((symlink, dir)) => {
                    let v = chars_of(e.name.as_str());
                    let hidden = v.len() > 0 && v[0] == '.';
                    if !symlink && !(dir && hidden) {
                        kept.push(TreeEntry { name: e.name, path: e.path, is_dir: dir });
                    }
                },
                None => {},
            }
        }
        proof {
            k = k + 1;
        }
    }
    proof {
        assert(orig.take(k) =~= orig);
    }
    let r = sort_tree(kept);
    proof {
        vstd::seq_lib::to_multiset_len(r@);
        vstd::seq_lib::to_multiset_len(kept@);
    }
    r
}


// ── A push's answer ─────────────────────────────────────────────────────────

// ── Rendering a frame nobody expected ──────────────────────────────────────

pub open spec fn bool_text(b: bool) -> Seq<char> {
    if b { "true"@ } else { "false"@ }
}

pub open spec fn dbg(s: String) -> Seq<char> {
    crate::text::debug_str(s@)
}

pub open spec fn tab_debug(t: TabEntry) -> Seq<char> {
    "TabEntry { path: "@ + dbg(t.path) + ", active: "@ + bool_text(t.active) + " }"@
}

pub open spec fn path_debug(p: PathEntry) -> Seq<char> {
    "PathEntry { path: "@ + dbg(p.path) + ", name: "@ + dbg(p.name) + " }"@
}

pub open spec fn tree_debug(e: TreeEntry) -> Seq<char> {
    "TreeEntry { name: "@ + dbg(e.name) + ", path: "@ + dbg(e.path) + ", is_dir: "@ + bool_text(e.is_dir) + " }"@
}

pub open spec fn list_debug(items: Seq<Seq<char>>) -> Seq<char> {
    "["@ + crate::text::joined(items, ", "@) + "]"@
}

/// A response the way its derived `Debug` writes it: variant and field
/// names, strings quoted and escaped, numbers in decimal, lists in brackets.
pub open spec fn res_debug(res: Res) -> Seq<char> {
    match res {
        Res::Hello(a) => "Hello(HelloAck { proto: "@ + crate::text::dec(a.proto as nat) + ", device: "@ + dbg(a.device)
            + ", scope: "@ + dbg(a.scope) + " })"@,
        Res::Tabs(v) => "Tabs("@ + list_debug(v@.map_values(|t: TabEntry| tab_debug(t))) + ")"@,
        Res::Paths(v) => "Paths("@ + list_debug(v@.map_values(|p: PathEntry| path_debug(p))) + ")"@,
        Res::Tree(v) => "Tree("@ + list_debug(v@.map_values(|e: TreeEntry| tree_debug(e))) + ")"@,
        Res::Artifact(m) => "Artifact(ArtifactMeta { hash: "@ + dbg(m.hash) + ", size: "@ + crate::text::dec(m.size as nat)
            + ", mtime: "@ + crate::text::dec(m.mtime as nat) + ", warn: "@ + bool_text(m.warn) + " })"@,
        Res::Subscribed => "Subscribed"@,
        Res::Opened => "Opened"@,
        Res::Denied(reason) => "Denied("@ + dbg(reason) + ")"@,
        Res::Pushed { name, size } => "Pushed { name: "@ + dbg(name) + ", size: "@ + crate::text::dec(size as nat) + " }"@,
    }
}

fn push_bool(m: &mut String, b: bool)
    ensures
        final(m)@ == old(m)@ + bool_text(b),
{
    if b {
        append(m, "true");
    } else {
        append(m, "false");
    }
    proof {
        reveal_strlit("true");
        reveal_strlit("false");
    }
}

fn push_dbg(m: &mut String, s: &String)
    ensures
        final(m)@ == old(m)@ + dbg(*s),
{
    let q = crate::text::quoted(s.as_str());
    append(m, q.as_str());
}

fn tab_debug_of(t: &TabEntry) -> (r: String)
    ensures
        r@ == tab_debug(*t),
{
    let mut m = own("TabEntry { path: ");
    push_dbg(&mut m, &t.path);
    append(&mut m, ", active: ");
    push_bool(&mut m, t.active);
    append(&mut m, " }");
    m
}

fn path_debug_of(p: &PathEntry) -> (r: String)
    ensures
        r@ == path_debug(*p),
{
    let mut m = own("PathEntry { path: ");
    push_dbg(&mut m, &p.path);
    append(&mut m, ", name: ");
    push_dbg(&mut m, &p.name);
    append(&mut m, " }");
    m
}

fn tree_debug_of(e: &TreeEntry) -> (r: String)
    ensures
        r@ == tree_debug(*e),
{
    let mut m = own("TreeEntry { name: ");
    push_dbg(&mut m, &e.name);
    append(&mut m, ", path: ");
    push_dbg(&mut m, &e.path);
    append(&mut m, ", is_dir: ");
    push_bool(&mut m, e.is_dir);
    append(&mut m, " }");
    m
}

fn list_debug_of(items: &Vec<String>) -> (r: String)
    ensures
        r@ == list_debug(views(items@)),
{
    let mut m = own("[");
    let j = crate::text::join_strings(items, ", ");
    append(&mut m, j.as_str());
    append(&mut m, "]");
    m
}

fn tabs_debug(v: &Vec<TabEntry>) -> (r: String)
    ensures
        r@ == list_debug(v@.map_values(|t: TabEntry| tab_debug(t))),
{
    let mut items: Vec<String> = Vec::new();
    let mut i: usize = 0;
    while i < v.len()
        invariant
            i <= v.len(),
            views(items@) =~= v@.take(i as int).map_values(|t: TabEntry| tab_debug(t)),
        decreases v.len() - i,
    {
        let ghost before = items@;
        items.push(tab_debug_of(&v[i]));
        proof {
            assert(views(items@) =~= views(before).push(tab_debug(v@[i as int])));
            assert(v@.take(i + 1) =~= v@.take(i as int).push(v@[i as int]));
        }
        i += 1;
    }
    assert(v@.take(i as int) =~= v@);
    list_debug_of(&items)
}

fn paths_debug(v: &Vec<PathEntry>) -> (r: String)
    ensures
        r@ == list_debug(v@.map_values(|p: PathEntry| path_debug(p))),
{
    let mut items: Vec<String> = Vec::new();
    let mut i: usize = 0;
    while i < v.len()
        invariant
            i <= v.len(),
            views(items@) =~= v@.take(i as int).map_values(|p: PathEntry| path_debug(p)),
        decreases v.len() - i,
    {
        let ghost before = items@;
        items.push(path_debug_of(&v[i]));
        proof {
            assert(views(items@) =~= views(before).push(path_debug(v@[i as int])));
            assert(v@.take(i + 1) =~= v@.take(i as int).push(v@[i as int]));
        }
        i += 1;
    }
    assert(v@.take(i as int) =~= v@);
    list_debug_of(&items)
}

fn trees_debug(v: &Vec<TreeEntry>) -> (r: String)
    ensures
        r@ == list_debug(v@.map_values(|e: TreeEntry| tree_debug(e))),
{
    let mut items: Vec<String> = Vec::new();
    let mut i: usize = 0;
    while i < v.len()
        invariant
            i <= v.len(),
            views(items@) =~= v@.take(i as int).map_values(|e: TreeEntry| tree_debug(e)),
        decreases v.len() - i,
    {
        let ghost before = items@;
        items.push(tree_debug_of(&v[i]));
        proof {
            assert(views(items@) =~= views(before).push(tree_debug(v@[i as int])));
            assert(v@.take(i + 1) =~= v@.take(i as int).push(v@[i as int]));
        }
        i += 1;
    }
    assert(v@.take(i as int) =~= v@);
    list_debug_of(&items)
}

/// The debug rendering of a response, as its derived `Debug` writes it.
pub fn render_res(res: &Res) -> (r: String)
    ensures
        r@ == res_debug(*res),
{
    match res {
        Res::Hello(a) => {
            let mut m = own("Hello(HelloAck { proto: ");
            crate::text::push_dec(&mut m, a.proto as u64);
            append(&mut m, ", device: ");
            push_dbg(&mut m, &a.device);
            append(&mut m, ", scope: ");
            push_dbg(&mut m, &a.scope);
            append(&mut m, " })");
            m
        },
        Res::Tabs(v) => {
            let mut m = own("Tabs(");
            let l = tabs_debug(v);
            append(&mut m, l.as_str());
            append(&mut m, ")");
            m
        },
        Res::Paths(v) => {
            let mut m = own("Paths(");
            let l = paths_debug(v);
            append(&mut m, l.as_str());
            append(&mut m, ")");
            m
        },
        Res::Tree(v) => {
            let mut m = own("Tree(");
            let l = trees_debug(v);
            append(&mut m, l.as_str());
            append(&mut m, ")");
            m
        },
        Res::Artifact(a) => {
            let mut m = own("Artifact(ArtifactMeta { hash: ");
            push_dbg(&mut m, &a.hash);
            append(&mut m, ", size: ");
            crate::text::push_dec(&mut m, a.size);
            append(&mut m, ", mtime: ");
            crate::text::push_dec(&mut m, a.mtime);
            append(&mut m, ", warn: ");
            push_bool(&mut m, a.warn);
            append(&mut m, " })");
            m
        },
        Res::Subscribed => own("Subscribed"),
        Res::Opened => own("Opened"),
        Res::Denied(reason) => {
            let mut m = own("Denied(");
            push_dbg(&mut m, reason);
            append(&mut m, ")");
            m
        },
        Res::Pushed { name, size } => {
            let mut m = own("Pushed { name: ");
            push_dbg(&mut m, name);
            append(&mut m, ", size: ");
            crate::text::push_dec(&mut m, *size);
            append(&mut m, " }");
            m
        },
    }
}

/// The host's wording for an answer that is not the one asked for: a
/// refusal verbatim, anything else named as unexpected.
pub fn unexpected(res: Res) -> (r: String)
    ensures
        match res {
            Res::Denied(reason) => r == reason,
            _ => r@ == "unexpected response from the peer: "@ + res_debug(res),
        },
{
    match res {
        Res::Denied(reason) => reason,
        other => {
            let mut m = own("unexpected response from the peer: ");
            let d = render_res(&other);
            append(&mut m, d.as_str());
            m
        },
    }
}

/// How a push settled, from the host's answer to it. A refusal and a frame
/// that makes no sense are both the host's answer to THIS request, and
/// neither improves by being asked again later.
pub fn push_answer(res: Res, hash: String) -> (r: Result<PushedArtifact, PushFailure>)
    ensures
        match res {
            Res::Pushed { name, size } => r == Ok::<PushedArtifact, PushFailure>(PushedArtifact { name, size, hash }),
            Res::Denied(reason) => r == Err::<PushedArtifact, PushFailure>(PushFailure::Denied(reason)),
            _ => r matches Err(PushFailure::Denied(_)),
        },
{
    match res {
        Res::Pushed { name, size } => Ok(PushedArtifact { name, size, hash }),
        other => Err(PushFailure::Denied(unexpected(other))),
    }
}

/// A content address that came out of the spool, checked before a staged
/// push: a record file is editable by hand and survives a build change, so
/// its hash is no more trusted than one off the wire.
pub fn staged_hash(hash_hex: &str) -> (r: Result<String, PushFailure>)
    ensures
        match r {
            Ok(h) => crate::beam::hex_address(hash_hex@) && h@ == hash_hex@,
            Err(f) => !crate::beam::hex_address(hash_hex@) && (f matches PushFailure::Local(m)
                && m@ == "malformed content address"@),
        },
{
    match crate::beam::parse_hash(hash_hex) {
        Some(h) => Ok(h),
        None => Err(PushFailure::Local(own("malformed content address"))),
    }
}

/// Where a fetched artifact is cached: `<cache_dir>/<hash><ext>`. The
/// extension is kept because a reader keys off it; the hash arrives over
/// the wire, so it is parsed the guarded way first.
pub fn cache_target(cache_dir: &str, hash_hex: &str, ext: &str) -> (r: Result<String, String>)
    ensures
        match r {
            Ok(p) => crate::beam::hex_address(hash_hex@) && p@ == crate::paths::join(cache_dir@, hash_hex@ + ext@),
            Err(e) => !crate::beam::hex_address(hash_hex@) && e@ == "malformed content address"@,
        },
{
    match crate::beam::parse_hash(hash_hex) {
        Some(h) => {
            let mut name = h;
            append(&mut name, ext);
            Ok(crate::paths::join_path(cache_dir, name.as_str()))
        },
        None => Err(own("malformed content address")),
    }
}

} // verus!
