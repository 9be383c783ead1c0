//! The seams between the remote stack and whatever application hosts it.
//! The stack owns identity, transport, the path gate and the wire protocol;
//! what is open, starred and recent, and what a remote event should DO, are
//! the application's. Both cross here.

use vstd::prelude::*;
use crate::peers::PendingPair;

verus! {

/// Something the host side needs the application to do.
#[derive(Debug, Clone, PartialEq, Eq)]
pub enum HostSignal {
    /// A pairing reached the fingerprint step; the local user must confirm.
    PairPending(PendingPair),
    /// A control-scoped peer asked this machine to open an artifact.
    OpenOnHost { peer: String, path: String, reader_mode: bool },
    /// A control-scoped peer pushed an artifact and the verified bytes
    /// landed in the received folder.
    ArtifactReceived {
        peer: String,
        path: String,
        name: String,
        size: u64,
        /// Content address, hex.
        hash: String,
    },
    /// A paired peer finished the handshake and holds a live session here:
    /// it is reachable right now.
    PeerConnected {
        peer: String,
        device: String,
        /// What THIS machine grants that peer, never what it grants this one.
        scope: String,
    },
}

/// Where host signals go. Implemented by the application; a plain closure
/// is a sink, and a headless host can hold state instead.
pub trait EventSink {
    /// The signals this sink is ready to take: all of them, unless the sink
    /// says otherwise.
    open spec fn accepts(&self, signal: HostSignal) -> bool {
        true
    }

    fn emit(&self, signal: HostSignal)
        requires
            self.accepts(signal),
    ;
}

impl<F: Fn(HostSignal)> EventSink for F {
    open spec fn accepts(&self, signal: HostSignal) -> bool {
        call_requires(*self, (signal,))
    }

    /// Calls the closure once, with this signal.
    fn emit(&self, signal: HostSignal)
        ensures
            call_ensures(*self, (signal,), ()),
    {
        (self)(signal)
    }
}

/// The host's catalog: what it considers starred and recently opened. A
/// view-open peer may fetch exactly what this reports (plus the published
/// tabs), every entry still passing the root gate.
pub trait HostCatalog {
    fn bookmarks(&self) -> Vec<String>;

    fn recents(&self) -> Vec<String>;
}

/// A catalog with nothing in it: the default for a headless host.
#[derive(Debug, Clone, Copy, Default)]
pub struct EmptyCatalog;

impl HostCatalog for EmptyCatalog {
    fn bookmarks(&self) -> (r: Vec<String>)
        ensures
            r@.len() == 0,
    {
        Vec::new()
    }

    fn recents(&self) -> (r: Vec<String>)
        ensures
            r@.len() == 0,
    {
        Vec::new()
    }
}

} // verus!
