//! The scope wire protocol: the message shapes, the frame length prefix and
//! the treatment every device name from another machine gets.
//!
//! Framing: one stream per session carries length-prefixed frames (a u32
//! little-endian length, then the body). Bodies are encoded elsewhere; this
//! module owns the prefix rule and the shapes.

use vstd::prelude::*;
use crate::text::{
    clean, clean_prefix, is_clean, lemma_clean_is_clean, lemma_clean_of_clean, lemma_trim_chars,
    lemma_trim_fixed, lemma_trim_idempotent, own, string_of, trim, trim_chars, truncate,
};

verus! {

/// Session protocol ALPN.
pub const SCOPE_ALPN: &'static str = "vlerv/scope/0";

/// Pairing runs on its own ALPN.
pub const PAIR_ALPN: &'static str = "vlerv/pair/0";

/// Wire version carried in `Hello` / `PairHello`. A mismatch is refused.
pub const PROTO_VERSION: u32 = 1;

/// Frames carry metadata only; the cap bounds what one hostile frame header
/// can make a reader allocate.
pub const MAX_FRAME_BYTES: usize = 262144;

/// Longest device name accepted from the wire, in chars.
pub const MAX_DEVICE_CHARS: usize = 64;

// ── Requests (client → host) ────────────────────────────────────────────────

#[derive(Debug, Clone, PartialEq, Eq)]
pub enum Req {
    /// Always the first frame. Rejected on version mismatch.
    Hello { proto: u32, device: String },
    ListTabs,
    ListBookmarks,
    ListRecents,
    /// Browse scope and up.
    ListTree { path: String },
    /// Answers hash/size/mtime only; the bytes move over the blob protocol.
    GetArtifact { path: String },
    /// Start pushing `Event` frames on this stream.
    Subscribe,
    /// Control scope only.
    OpenOnHost { path: String, reader_mode: bool },
    /// Stop pushing events.
    Unsubscribe,
    /// Control scope only: the client offers bytes and the host pulls them.
    PushArtifact { name: String, size: u64, hash: String, ticket: String },
}

// ── Responses and events (host → client) ────────────────────────────────────

/// One frame written by the host.
#[derive(Debug, Clone, PartialEq, Eq)]
pub enum Frame {
    Res(Res),
    Event(Event),
}

#[derive(Debug, Clone, PartialEq, Eq)]
pub enum Res {
    Hello(HelloAck),
    Tabs(Vec<TabEntry>),
    Paths(Vec<PathEntry>),
    Tree(Vec<TreeEntry>),
    Artifact(ArtifactMeta),
    Subscribed,
    Opened,
    /// Every refusal, in the one no-existence-leak wording.
    Denied(String),
    /// A pushed artifact landed, under the name the host gave it.
    Pushed { name: String, size: u64 },
}

#[derive(Debug, Clone, PartialEq, Eq)]
pub struct HelloAck {
    pub proto: u32,
    pub device: String,
    /// The scope this host granted the calling peer, as its wire string.
    pub scope: String,
}

/// One open tab on the host, in strip order.
#[derive(Debug, PartialEq, Eq)]
pub struct TabEntry {
    pub path: String,
    pub active: bool,
}

impl Clone for TabEntry {
    fn clone(&self) -> (r: Self)
        ensures
            r == *self,
    {
        TabEntry { path: self.path.clone(), active: self.active }
    }
}

/// A bookmark or recent entry.
#[derive(Debug, Clone, PartialEq, Eq)]
pub struct PathEntry {
    pub path: String,
    pub name: String,
}

/// One child of a listed directory.
#[derive(Debug, Clone, PartialEq, Eq)]
pub struct TreeEntry {
    pub name: String,
    pub path: String,
    pub is_dir: bool,
}

/// The answer to `GetArtifact`: a content address plus display facts.
#[derive(Debug, Clone, PartialEq, Eq)]
pub struct ArtifactMeta {
    /// BLAKE3 hash, hex.
    pub hash: String,
    pub size: u64,
    /// Unix seconds; 0 when the host cannot read a modification time.
    pub mtime: u64,
    /// The host crossed its soft size threshold.
    pub warn: bool,
}

#[derive(Debug, Clone, PartialEq, Eq)]
pub enum Event {
    TabOpened { path: String },
    TabClosed { path: String },
    TabActivated { path: String },
    /// The file was re-hashed; the event carries the new content address.
    FileChanged { path: String, hash: String },
    FileRemoved { path: String },
}

// ── Pairing handshake ───────────────────────────────────────────────────────

#[derive(Debug, Clone, PartialEq, Eq)]
pub struct PairHello {
    pub proto: u32,
    /// The one-time token from the pairing ticket.
    pub token: [u8; 32],
    pub device: String,
}

#[derive(Debug, Clone, PartialEq, Eq)]
pub enum PairAck {
    /// The host took the token; the local human compares fingerprints next.
    Accepted { proto: u32, device: String },
    Denied(String),
}

// ── Framing ────────────────────────────────────────────────────────────────

/// The little-endian number a four-byte prefix holds.
pub open spec fn le_u32(p: [u8; 4]) -> nat {
    (p[0] as nat) + 256 * (p[1] as nat) + 65536 * (p[2] as nat) + 16777216 * (p[3] as nat)
}

/// The refusal a length prefix outside the cap gets.
pub open spec fn frame_cap_message() -> Seq<char> {
    "frame exceeds the protocol size cap"@
}

/// Read a length prefix and validate it against the cap. Returns the body
/// length the caller must read next.
pub fn frame_len(prefix: [u8; 4]) -> (r: Result<usize, String>)
    ensures
        match r {
            Ok(n) => 1 <= le_u32(prefix) <= MAX_FRAME_BYTES && n == le_u32(prefix),
            Err(e) => (le_u32(prefix) == 0 || le_u32(prefix) > MAX_FRAME_BYTES) && e@
                == frame_cap_message(),
        },
{
    let len: u64 = prefix[0] as u64 + 256 * (prefix[1] as u64) + 65536 * (prefix[2] as u64)
        + 16777216 * (prefix[3] as u64);
    if len == 0 || len > MAX_FRAME_BYTES as u64 {
        return Err(own("frame exceeds the protocol size cap"));
    }
    Ok(len as usize)
}

/// The four little-endian bytes of a length.
pub open spec fn le_bytes(n: nat) -> Seq<u8> {
    seq![(n % 256) as u8, ((n / 256) % 256) as u8, ((n / 65536) % 256) as u8, ((n / 16777216) % 256) as u8]
}

/// The framing half of encoding: a body under the cap, behind its
/// little-endian length.
pub fn frame_with_prefix(body: &Vec<u8>) -> (r: Result<Vec<u8>, String>)
    ensures
        match r {
            Ok(out) => body.len() <= MAX_FRAME_BYTES && out@ == le_bytes(body.len() as nat) + body@,
            Err(e) => body.len() > MAX_FRAME_BYTES && e@ == frame_cap_message(),
        },
{
    if body.len() > MAX_FRAME_BYTES {
        return Err(own("frame exceeds the protocol size cap"));
    }
    let n = body.len();
    let mut out: Vec<u8> = Vec::new();
    out.push((n % 256) as u8);
    out.push(((n / 256) % 256) as u8);
    out.push(((n / 65536) % 256) as u8);
    out.push(((n / 16777216) % 256) as u8);
    let mut i: usize = 0;
    while i < body.len()
        invariant
            i <= body.len(),
            n == body.len(),
            out@ == le_bytes(n as nat) + body@.take(i as int),
        decreases body.len() - i,
    {
        out.push(body[i]);
        assert(le_bytes(n as nat) + body@.take(i + 1) =~= (le_bytes(n as nat) + body@.take(i as int)).push(body@[i as int]));
        i += 1;
    }
    assert(body@.take(body.len() as int) =~= body@);
    Ok(out)
}

/// The length a frame is written with is the length it is read back as:
/// every body the encoder frames, short of the empty one, passes the
/// reader's cap check with its own length.
pub proof fn law_framed_length_reads_back(n: nat)
    requires
        1 <= n <= MAX_FRAME_BYTES,
    ensures
        ({
            let b = le_bytes(n);
            let p: [u8; 4] = [b[0], b[1], b[2], b[3]];
            le_u32(p) == n && 1 <= le_u32(p) <= MAX_FRAME_BYTES
        }),
{
    let b = le_bytes(n);
    let p: [u8; 4] = [b[0], b[1], b[2], b[3]];
    assert(p[0] == b[0] && p[1] == b[1] && p[2] == b[2] && p[3] == b[3]);
    assert(n < 16777216);
    assert((n % 256) + 256 * ((n / 256) % 256) + 65536 * ((n / 65536) % 256) + 16777216 * ((n
        / 16777216) % 256) == n) by (nonlinear_arith)
        requires
            n < 16777216,
    ;
}

// ── Device names from another machine ──────────────────────────────────────

/// What a device name from the wire becomes: clean, bounded, trimmed, and
/// never empty.
pub open spec fn sanitized_device(name: Seq<char>) -> Seq<char> {
    let t = trim(truncate(clean(name), MAX_DEVICE_CHARS as nat));
    if t.len() == 0 {
        "unknown device"@
    } else {
        t
    }
}

/// Reduce an attacker-controlled device name to safe display text: no control
/// characters, no bidi/zero-width spoofing, bounded length.
pub fn sanitize_device(name: &str) -> (r: String)
    ensures
        r@ == sanitized_device(name@),
{
    let cleaned = clean_prefix(name, MAX_DEVICE_CHARS);
    let t = trim_chars(&cleaned);
    if t.len() == 0 {
        own("unknown device")
    } else {
        string_of(&t)
    }
}

/// A sanitized device name is clean, bounded and not empty.
pub proof fn lemma_sanitized_device_shape(name: Seq<char>)
    ensures
        sanitized_device(name).len() >= 1,
        sanitized_device(name).len() <= MAX_DEVICE_CHARS,
        forall|i: int|
            0 <= i < sanitized_device(name).len() ==> is_clean(#[trigger] sanitized_device(name)[i]),
{
    reveal_strlit("unknown device");
    let c = truncate(clean(name), MAX_DEVICE_CHARS as nat);
    lemma_clean_is_clean(name);
    lemma_trim_chars(c);
    let t = trim(c);
    if t.len() > 0 {
        assert forall|i: int| 0 <= i < t.len() implies is_clean(#[trigger] t[i]) by {
            assert(c.contains(t[i]));
            let j = choose|j: int| 0 <= j < c.len() && c[j] == t[i];
            assert(clean(name)[j] == c[j]);
        }
    }
}

/// Sanitizing a name that was already sanitized changes nothing, which is
/// what lets a sanitized name cross the wire and come back unchanged.
pub proof fn law_sanitize_device_idempotent(name: Seq<char>)
    ensures
        sanitized_device(sanitized_device(name)) == sanitized_device(name),
{
    let r = sanitized_device(name);
    lemma_sanitized_device_shape(name);
    lemma_clean_of_clean(r);
    assert(truncate(clean(r), MAX_DEVICE_CHARS as nat) == r);
    reveal_strlit("unknown device");
    let c = truncate(clean(name), MAX_DEVICE_CHARS as nat);
    if trim(c).len() == 0 {
        assert(r == "unknown device"@);
        assert(r[0] == 'u');
        assert(r.last() == 'e');
        lemma_trim_fixed(r);
    } else {
        lemma_trim_idempotent(c);
    }
}

} // verus!
