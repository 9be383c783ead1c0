//! The machines this one trusts: a paired peer, a pairing still waiting for
//! its fingerprint check, and the scope a peer was granted.

use vstd::prelude::*;
use crate::text::{chars_of, own, string_of, trim, trimmed};

verus! {

/// What a paired peer may do on this machine, narrowest first.
#[derive(Debug, Clone, Copy, PartialEq, Eq, Structural)]
pub enum Scope {
    /// Fetch the artifacts it was told about: open tabs, bookmarks, recents.
    ViewOpen,
    /// Also list directories under the roots.
    Browse,
    /// Also open files on this host and push artifacts to it.
    Control,
}

/// The wire spelling of a scope.
pub open spec fn scope_text(s: Scope) -> Seq<char> {
    match s {
        Scope::ViewOpen => "view-open"@,
        Scope::Browse => "browse"@,
        Scope::Control => "control"@,
    }
}

/// The scope a wire spelling names, if any. Case matters.
pub open spec fn scope_of(s: Seq<char>) -> Option<Scope> {
    if s == "view-open"@ {
        Some(Scope::ViewOpen)
    } else if s == "browse"@ {
        Some(Scope::Browse)
    } else if s == "control"@ {
        Some(Scope::Control)
    } else {
        None
    }
}

/// Which requests a scope admits.
pub open spec fn scope_allows(s: Scope, req: crate::proto::Req) -> bool {
    match req {
        crate::proto::Req::ListTree { .. } => s != Scope::ViewOpen,
        crate::proto::Req::OpenOnHost { .. } => s == Scope::Control,
        crate::proto::Req::PushArtifact { .. } => s == Scope::Control,
        _ => true,
    }
}

/// What each scope may ask: opening a file on this host and pushing an
/// artifact to it are for a control peer alone, listing directories is for
/// browse and control, and every other request is open to every paired
/// peer. So the scopes nest: whatever a narrower scope may ask, a wider one
/// may too, and control may ask everything.
pub proof fn law_what_each_scope_may_ask(s: Scope, req: crate::proto::Req)
    ensures
        (req is OpenOnHost || req is PushArtifact) ==> (scope_allows(s, req) <==> s == Scope::Control),
        req is ListTree ==> (scope_allows(s, req) <==> s != Scope::ViewOpen),
        !(req is OpenOnHost || req is PushArtifact || req is ListTree) ==> scope_allows(s, req),
        scope_allows(Scope::ViewOpen, req) ==> scope_allows(Scope::Browse, req),
        scope_allows(Scope::Browse, req) ==> scope_allows(Scope::Control, req),
        scope_allows(Scope::Control, req),
{
}

/// The refusal an unknown scope spelling gets.
pub open spec fn unknown_scope_message(s: Seq<char>) -> Seq<char> {
    "unknown scope \""@ + s + "\""@
}

impl Scope {
    pub fn as_str(&self) -> (r: &'static str)
        ensures
            r@ == scope_text(*self),
    {
        match self {
            Scope::ViewOpen => "view-open",
            Scope::Browse => "browse",
            Scope::Control => "control",
        }
    }

    /// Parse a wire spelling.
    pub fn parse(s: &str) -> (r: Result<Scope, String>)
        ensures
            match r {
                Ok(x) => scope_of(s@) == Some(x),
                Err(e) => scope_of(s@) is None && e@ == unknown_scope_message(s@),
            },
    {
        if crate::order::same_text(s, "view-open") {
            Ok(Scope::ViewOpen)
        } else if crate::order::same_text(s, "browse") {
            Ok(Scope::Browse)
        } else if crate::order::same_text(s, "control") {
            Ok(Scope::Control)
        } else {
            let mut m = own("unknown scope \"");
            crate::text::append(&mut m, s);
            crate::text::append(&mut m, "\"");
            Err(m)
        }
    }

    /// An optional scope argument: absent stays absent, which is what tells
    /// a confirmation to leave an existing grant where it is; a present one
    /// is trimmed and must name a scope.
    pub fn parse_optional(raw: Option<&str>) -> (r: Result<Option<Scope>, String>)
        ensures
            match raw {
                None => r == Ok::<Option<Scope>, String>(None),
                Some(s) => match r {
                    Ok(Some(x)) => scope_of(trim(s@)) == Some(x),
                    Ok(None) => false,
                    Err(e) => scope_of(trim(s@)) is None && e@ == unknown_scope_message(trim(s@)),
                },
            },
    {
        match raw {
            None => Ok(None),
            Some(s) => {
                let t = trimmed(s);
                match Scope::parse(t.as_str()) {
                    Ok(x) => Ok(Some(x)),
                    Err(e) => Err(e),
                }
            },
        }
    }

    /// The verb-level scope filter, applied before any path touches the
    /// disk: listing a directory takes browse and up, opening a file on this
    /// host and pushing one to it take control, and everything else any
    /// paired peer may ask.
    pub fn allows(&self, req: &crate::proto::Req) -> (b: bool)
        ensures
            b == scope_allows(*self, *req),
    {
        match req {
            crate::proto::Req::ListTree { .. } => match self {
                Scope::ViewOpen => false,
                _ => true,
            },
            crate::proto::Req::OpenOnHost { .. } => match self {
                Scope::Control => true,
                _ => false,
            },
            crate::proto::Req::PushArtifact { .. } => match self {
                Scope::Control => true,
                _ => false,
            },
            _ => true,
        }
    }

    /// May a peer holding this scope land artifacts here? Only control.
    pub fn may_land_artifacts(self) -> (b: bool)
        ensures
            b == (self == Scope::Control),
    {
        match self {
            Scope::Control => true,
            _ => false,
        }
    }
}

/// A paired peer, as the peer store keeps it.
#[derive(Debug, PartialEq, Eq)]
pub struct Peer {
    /// Hex node id.
    pub node_id: String,
    /// The device name it last announced, sanitized.
    pub device: String,
    pub scope: Scope,
    pub paired_at: u64,
    pub last_seen: u64,
    /// The scope this peer's last handshake said it granted THIS machine.
    pub last_ack_scope: Option<String>,
}

impl Clone for Peer {
    fn clone(&self) -> (r: Self)
        ensures
            r == *self,
    {
        Peer {
            node_id: self.node_id.clone(),
            device: self.device.clone(),
            scope: self.scope,
            paired_at: self.paired_at,
            last_seen: self.last_seen,
            last_ack_scope: match &self.last_ack_scope {
                Some(s) => Some(s.clone()),
                None => None,
            },
        }
    }
}

/// A pairing parked until a human compares fingerprints.
#[derive(Debug, PartialEq, Eq)]
pub struct PendingPair {
    pub node_id: String,
    pub device: String,
    pub fingerprint: Vec<String>,
    pub role: String,
    pub created_at: u64,
}

impl Clone for PendingPair {
    fn clone(&self) -> (r: Self)
        ensures
            r.node_id == self.node_id,
            r.device == self.device,
            r.role == self.role,
            r.created_at == self.created_at,
    {
        PendingPair {
            node_id: self.node_id.clone(),
            device: self.device.clone(),
            fingerprint: self.fingerprint.clone(),
            role: self.role.clone(),
            created_at: self.created_at,
        }
    }
}

/// The width of a short node id: ten characters, five bytes of hex.
pub const SHORT_ID_CHARS: usize = 10;

pub open spec fn short_id_spec(id: Seq<char>) -> Seq<char> {
    if id.len() <= SHORT_ID_CHARS {
        id
    } else {
        id.take(SHORT_ID_CHARS as int)
    }
}

/// The short form a node id is shown in.
pub fn short_id(id: &str) -> (r: String)
    ensures
        r@ == short_id_spec(id@),
{
    let v = chars_of(id);
    if v.len() <= SHORT_ID_CHARS {
        return own(id);
    }
    let mut out: Vec<char> = Vec::new();
    let mut i: usize = 0;
    while i < SHORT_ID_CHARS
        invariant
            i <= SHORT_ID_CHARS < v.len(),
            out@ == v@.take(i as int),
        decreases SHORT_ID_CHARS - i,
    {
        out.push(v[i]);
        assert(out@ =~= v@.take(i + 1));
        i += 1;
    }
    string_of(&out)
}

} // verus!
