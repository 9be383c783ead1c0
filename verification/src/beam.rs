//! Beam — one artifact offered under a ticket: the limits, the offer
//! registry the request gate consults, and the treatment a name hint from a
//! link gets before it becomes a filename.

use vstd::prelude::*;
use iroh_blobs::ticket::BlobTicket;
use iroh_blobs::BlobFormat;
use vstd::utf8::{encode_utf8, is_char_boundary};
use vstd::string::StringSliceAdditionalSpecFns;
use crate::order::same_text;
use crate::text::{
    append, chars_of, clean, clean_prefix, dec, dec_padded, dec_string, is_clean, own, push_char,
    push_dec, push_dec_padded, push_range, string_of, trim, trim_chars, truncate,
};

verus! {

/// Soft warn threshold.
pub const WARN_BYTES: u64 = 20971520;

/// Hard cap on one transfer.
pub const HARD_CAP_BYTES: u64 = 268435456;

/// Offer lifetime, and the range any caller-supplied lifetime is clamped into.
pub const DEFAULT_TTL_HOURS: u32 = 24;
pub const MIN_TTL_HOURS: u32 = 1;
pub const MAX_TTL_HOURS: u32 = 720;

pub const MIB: u64 = 1048576;

/// Longest beam name kept from a link's name hint, in chars.
pub const MAX_NAME_CHARS: usize = 128;

/// Byte counts as this subsystem states them to a person: MiB from a
/// megabyte up, KiB rounded up below it.
pub open spec fn human_bytes_spec(n: u64) -> Seq<char> {
    if n >= MIB {
        dec((n / MIB) as nat) + " MiB"@
    } else {
        dec(((n + 1023) / 1024) as nat) + " KiB"@
    }
}

pub fn human_bytes(n: u64) -> (r: String)
    ensures
        r@ == human_bytes_spec(n),
{
    if n >= MIB {
        let mut s = dec_string(n / MIB);
        append(&mut s, " MiB");
        s
    } else {
        let mut s = dec_string((n + 1023) / 1024);
        append(&mut s, " KiB");
        s
    }
}


// ── The name a link's hint becomes ─────────────────────────────────────────

/// What follows the last separator of either convention.
pub open spec fn last_segment(s: Seq<char>) -> Seq<char>
    decreases s.len(),
{
    if s.len() == 0 {
        s
    } else if s.last() == '/' || s.last() == '\\' {
        Seq::empty()
    } else {
        last_segment(s.drop_last()).push(s.last())
    }
}

/// `s` without the dots and whitespace that lead it, stripped until
/// neither leads.
pub open spec fn trim_leading_dots(s: Seq<char>) -> Seq<char>
    decreases s.len(),
{
    if s.len() > 0 && (s[0] == '.' || crate::text::is_ws(s[0])) {
        trim_leading_dots(s.drop_first())
    } else {
        s
    }
}

/// What a name hint keeps: its last segment, stripped of control and
/// spoofing characters and bounded, with no dot or whitespace leading it
/// and no whitespace trailing it.
pub open spec fn hint_name(hint: Seq<char>) -> Seq<char> {
    trim(trim_leading_dots(truncate(clean(last_segment(hint)), MAX_NAME_CHARS as nat)))
}

proof fn lemma_leading_stripped(s: Seq<char>)
    ensures
        trim_leading_dots(s).len() > 0 ==> trim_leading_dots(s)[0] != '.' && !crate::text::is_ws(trim_leading_dots(s)[0]),
    decreases s.len(),
{
    if s.len() > 0 && (s[0] == '.' || crate::text::is_ws(s[0])) {
        lemma_leading_stripped(s.drop_first());
    }
}

/// A kept hint never names a hidden file and never starts with whitespace.
pub proof fn lemma_hint_name_is_not_hidden(hint: Seq<char>)
    ensures
        hint_name(hint).len() > 0 ==> hint_name(hint)[0] != '.' && !crate::text::is_ws(hint_name(hint)[0]),
{
    let y = trim_leading_dots(truncate(clean(last_segment(hint)), MAX_NAME_CHARS as nat));
    lemma_leading_stripped(truncate(clean(last_segment(hint)), MAX_NAME_CHARS as nat));
    assert(crate::text::trim_start(y) == y);
    crate::text::lemma_trim_end_prefix(y);
    let k = choose|k: int| 0 <= k <= y.len() && #[trigger] crate::text::trim_end(y) == y.subrange(0, k);
    if hint_name(hint).len() > 0 {
        assert(hint_name(hint)[0] == y[0]);
    }
}

/// How many bytes of the content address the fallback name keeps.
pub open spec fn fallback_len(hash_hex: &str) -> int {
    if hash_hex.spec_bytes().len() < 8 {
        hash_hex.spec_bytes().len() as int
    } else {
        8
    }
}

pub proof fn lemma_encode_utf8_concat(a: Seq<char>, b: Seq<char>)
    ensures
        encode_utf8(a + b) == encode_utf8(a) + encode_utf8(b),
    decreases a.len(),
{
    if a.len() == 0 {
        assert(a + b =~= b);
    } else {
        lemma_encode_utf8_concat(a.drop_first(), b);
        assert((a + b).drop_first() =~= a.drop_first() + b);
        assert((a + b)[0] == a[0]);
    }
}

fn fallback_name(hash_hex: &str) -> (r: String)
    requires
        is_char_boundary(hash_hex.spec_bytes(), fallback_len(hash_hex)),
        hash_hex.spec_bytes().len() <= usize::MAX,
    ensures
        encode_utf8(r@) == encode_utf8("beam-"@) + hash_hex.spec_bytes().subrange(0, fallback_len(hash_hex)),
        r@.len() > 0 && r@[0] == 'b',
{
    let k: usize = if hash_hex.len() < 8 {
        hash_hex.len()
    } else {
        8
    };
    assert(k as int == fallback_len(hash_hex));
    let (head, _rest) = hash_hex.split_at(k);
    let mut r = own("beam-");
    append(&mut r, head);
    proof {
        lemma_encode_utf8_concat("beam-"@, head@);
        reveal_strlit("beam-");
        assert(r@[0] == "beam-"@[0]);
    }
    r
}

fn last_segment_of(v: &Vec<char>) -> (r: Vec<char>)
    ensures
        r@ == last_segment(v@),
{
    let mut k: usize = v.len();
    proof {
        assert(v@.subrange(0, v.len() as int) =~= v@);
        assert(last_segment(v@) + v@.subrange(k as int, v.len() as int) =~= last_segment(v@));
    }
    while k > 0 && v[k - 1] != '/' && v[k - 1] != '\\'
        invariant
            k <= v.len(),
            last_segment(v@) == last_segment(v@.subrange(0, k as int)) + v@.subrange(k as int, v.len() as int),
        decreases k,
    {
        proof {
            let a = v@.subrange(0, k as int);
            assert(a.drop_last() =~= v@.subrange(0, k - 1));
            assert(last_segment(a) == last_segment(a.drop_last()).push(a.last()));
            assert(last_segment(a.drop_last()).push(a.last()) + v@.subrange(k as int, v.len() as int)
                =~= last_segment(v@.subrange(0, k - 1)) + v@.subrange(k - 1, v.len() as int));
        }
        k -= 1;
    }
    proof {
        assert(v@.subrange(0, v.len() as int) =~= v@);
        assert(last_segment(v@.subrange(0, k as int)) =~= Seq::<char>::empty()) by {
            if k > 0 {
                assert(v@.subrange(0, k as int).last() == v@[k - 1]);
            }
        }
        assert(Seq::<char>::empty() + v@.subrange(k as int, v.len() as int) =~= v@.subrange(k as int, v.len() as int));
    }
    let mut r: Vec<char> = Vec::new();
    let mut i = k;
    while i < v.len()
        invariant
            k <= i <= v.len(),
            r@ == v@.subrange(k as int, i as int),
        decreases v.len() - i,
    {
        r.push(v[i]);
        assert(v@.subrange(k as int, i + 1) =~= v@.subrange(k as int, i as int).push(v@[i as int]));
        i += 1;
    }
    r
}

fn without_leading_dots(v: &Vec<char>) -> (r: Vec<char>)
    ensures
        r@ == trim_leading_dots(v@),
{
    let mut k: usize = 0;
    assert(v@.subrange(0, v.len() as int) =~= v@);
    while k < v.len() && (v[k] == '.' || crate::text::is_ws_char(v[k]))
        invariant
            k <= v.len(),
            trim_leading_dots(v@) == trim_leading_dots(v@.subrange(k as int, v.len() as int)),
        decreases v.len() - k,
    {
        assert(v@.subrange(k as int, v.len() as int).drop_first() =~= v@.subrange(k + 1, v.len() as int));
        k += 1;
    }
    let mut r: Vec<char> = Vec::new();
    let mut i = k;
    while i < v.len()
        invariant
            k <= i <= v.len(),
            r@ == v@.subrange(k as int, i as int),
        decreases v.len() - i,
    {
        r.push(v[i]);
        assert(v@.subrange(k as int, i + 1) =~= v@.subrange(k as int, i as int).push(v@[i as int]));
        i += 1;
    }
    r
}

/// Reduce an attacker-controlled name hint to a safe bare filename: no path
/// components, no control or spoofing characters, no dotfiles, bounded
/// length; `beam-` and the start of the content address when nothing is
/// left.
pub fn sanitize_beam_name(hint: Option<&str>, hash_hex: &str) -> (r: String)
    requires
        is_char_boundary(hash_hex.spec_bytes(), fallback_len(hash_hex)),
        hash_hex.spec_bytes().len() <= usize::MAX,
    ensures
        match hint {
            Some(h) if hint_name(h@).len() > 0 => r@ == hint_name(h@) && r@[0] != '.',
            _ => encode_utf8(r@) == encode_utf8("beam-"@) + hash_hex.spec_bytes().subrange(0, fallback_len(hash_hex)),
        },
        r@.len() > 0 && r@[0] != '.',
{
    let h = match hint {
        None => {
            return fallback_name(hash_hex);
        },
        Some(h) => h,
    };
    let v = chars_of(h);
    let seg = last_segment_of(&v);
    let seg_text = string_of(&seg);
    let cleaned = clean_prefix(seg_text.as_str(), MAX_NAME_CHARS);
    let t2 = without_leading_dots(&cleaned);
    let t3 = trim_chars(&t2);
    proof {
        lemma_hint_name_is_not_hidden(h@);
    }
    if t3.len() == 0 {
        return fallback_name(hash_hex);
    }
    string_of(&t3)
}

// ── The link a beam is shared as ───────────────────────────────────────────

/// The bytes a query value leaves alone: ASCII outside the controls and the
/// reserved punctuation, which is RFC 3986's unreserved set.
pub open spec fn unreserved(b: u8) -> bool {
    (0x30 <= b && b <= 0x39) || (0x41 <= b && b <= 0x5a) || (0x61 <= b && b <= 0x7a) || b == 0x2d
        || b == 0x2e || b == 0x5f || b == 0x7e
}

pub open spec fn hex_digit(n: u8) -> char {
    if n < 10 {
        ((n + 48) as u8) as char
    } else {
        ((n + 55) as u8) as char
    }
}

/// Percent-encoding of a byte run: each byte outside the unreserved set as
/// `%XX` in upper-case hex, every other byte as itself.
pub open spec fn pct_encode(bytes: Seq<u8>) -> Seq<char>
    decreases bytes.len(),
{
    if bytes.len() == 0 {
        Seq::empty()
    } else {
        let b = bytes.last();
        let head = pct_encode(bytes.drop_last());
        if unreserved(b) {
            head.push(b as char)
        } else {
            head.push('%').push(hex_digit(b / 16)).push(hex_digit(b % 16))
        }
    }
}

fn hex_digit_of(n: u8) -> (c: char)
    requires
        n < 16,
    ensures
        c == hex_digit(n),
{
    if n < 10 {
        (n + 48) as char
    } else {
        (n + 55) as char
    }
}

/// Percent-encode a query value.
pub fn encode_query_value(s: &str) -> (r: String)
    ensures
        r@ == pct_encode(s.spec_bytes()),
{
    let bytes = s.as_bytes();
    let mut r = String::new();
    let mut i: usize = 0;
    assert(bytes@.take(0) =~= Seq::<u8>::empty());
    while i < bytes.len()
        invariant
            i <= bytes.len(),
            bytes@ == s.spec_bytes(),
            r@ == pct_encode(bytes@.take(i as int)),
        decreases bytes.len() - i,
    {
        let b = bytes[i];
        proof {
            assert(bytes@.take(i + 1).drop_last() =~= bytes@.take(i as int));
            assert(bytes@.take(i + 1).last() == b);
        }
        if (0x30 <= b && b <= 0x39) || (0x41 <= b && b <= 0x5a) || (0x61 <= b && b <= 0x7a) || b
            == 0x2d || b == 0x2e || b == 0x5f || b == 0x7e {
            push_char(&mut r, b as char);
        } else {
            push_char(&mut r, '%');
            push_char(&mut r, hex_digit_of(b / 16));
            push_char(&mut r, hex_digit_of(b % 16));
        }
        i += 1;
    }
    assert(bytes@.take(bytes.len() as int) =~= bytes@);
    r
}

/// The `vlerv://receive?...` link. The name and size are display hints for
/// the receiver's confirm dialog; the ticket's hash is the truth.
pub open spec fn link_spec(ticket: Seq<char>, name: &str, size: u64) -> Seq<char> {
    "vlerv://receive?ticket="@ + ticket + "&name="@ + pct_encode(name.spec_bytes()) + "&size="@
        + dec(size as nat)
}

pub fn build_link(ticket: &str, name: &str, size: u64) -> (r: String)
    ensures
        r@ == link_spec(ticket@, name, size),
{
    let mut r = own("vlerv://receive?ticket=");
    append(&mut r, ticket);
    append(&mut r, "&name=");
    let enc = encode_query_value(name);
    append(&mut r, enc.as_str());
    append(&mut r, "&size=");
    push_dec(&mut r, size);
    r
}

// ── Offer lifetime ─────────────────────────────────────────────────────────

/// A requested lifetime in hours, clamped into the policy range.
pub open spec fn clamp_ttl(hours: u32) -> u32 {
    if hours < MIN_TTL_HOURS {
        MIN_TTL_HOURS
    } else if hours > MAX_TTL_HOURS {
        MAX_TTL_HOURS
    } else {
        hours
    }
}

/// An offer's lifetime in seconds: a 0 from a stale settings file must not
/// mint a dead ticket, and a huge request must not mint a grant for ages.
pub fn offer_ttl_secs(hours: u32) -> (r: u64)
    ensures
        r == clamp_ttl(hours) as u64 * 3600,
        MIN_TTL_HOURS as u64 * 3600 <= r <= MAX_TTL_HOURS as u64 * 3600,
{
    let h = if hours < MIN_TTL_HOURS {
        MIN_TTL_HOURS
    } else if hours > MAX_TTL_HOURS {
        MAX_TTL_HOURS
    } else {
        hours
    };
    h as u64 * 3600
}

// ── The received folder's day names ────────────────────────────────────────

/// Days since the epoch to a civil date (Hinnant's algorithm), for a day
/// count that is not negative.
pub open spec fn civil(days: int) -> (int, int, int) {
    let z = days + 719468;
    let era = z / 146097;
    let doe = z % 146097;
    let yoe = (doe - doe / 1460 + doe / 36524 - doe / 146096) / 365;
    let y = yoe + era * 400;
    let doy = doe - (365 * yoe + yoe / 4 - yoe / 100);
    let mp = (5 * doy + 2) / 153;
    let d = doy - (153 * mp + 2) / 5 + 1;
    let m = if mp < 10 { mp + 3 } else { mp - 9 };
    (if m <= 2 { y + 1 } else { y }, m, d)
}

/// `YYYY-MM-DD` for a unix time.
pub open spec fn civil_date(unix_secs: u64) -> Seq<char> {
    let (y, m, d) = civil((unix_secs / 86400) as int);
    dec_padded(y as nat, 4) + "-"@ + dec_padded(m as nat, 2) + "-"@ + dec_padded(d as nat, 2)
}

/// Hinnant's days-to-civil, for the day counts a `u64` of seconds yields.
#[verifier::rlimit(30)]
fn civil_of(days: u64) -> (r: (u64, u64, u64))
    requires
        days <= u64::MAX / 86400,
    ensures
        (r.0 as int, r.1 as int, r.2 as int) == civil(days as int),
{
    let z: u64 = days + 719468;
    let era: u64 = z / 146097;
    let doe: u64 = z % 146097;
    let yoe: u64 = (doe - doe / 1460 + doe / 36524 - doe / 146096) / 365;
    let y: u64 = yoe + era * 400;
    let doy: u64 = doe - (365 * yoe + yoe / 4 - yoe / 100);
    let mp: u64 = (5 * doy + 2) / 153;
    let d: u64 = doy - (153 * mp + 2) / 5 + 1;
    let m: u64 = if mp < 10 { mp + 3 } else { mp - 9 };
    let y: u64 = if m <= 2 { y + 1 } else { y };
    (y, m, d)
}

/// `2026-08-15` from a unix timestamp: the name of the day directory a
/// received file lands in.
pub fn civil_date_string(unix_secs: u64) -> (r: String)
    ensures
        r@ == civil_date(unix_secs),
{
    let (y, m, d) = civil_of(unix_secs / 86400);
    let mut r = String::new();
    push_dec_padded(&mut r, y, 4);
    push_char(&mut r, '-');
    push_dec_padded(&mut r, m, 2);
    push_char(&mut r, '-');
    push_dec_padded(&mut r, d, 2);
    proof {
        reveal_strlit("-");
    }
    assert(r@ =~= civil_date(unix_secs));
    r
}

// ── Content addresses ───────────────────────────────────────────────────────

pub open spec fn is_lower_hex_digit(c: char) -> bool {
    ('0' <= c && c <= '9') || ('a' <= c && c <= 'f')
}

/// A content address in the one spelling this crate takes: 64 lower-case
/// hex digits.
pub open spec fn hex_address(s: Seq<char>) -> bool {
    s.len() == 64 && forall|i: int| 0 <= i < 64 ==> is_lower_hex_digit(#[trigger] s[i])
}

/// `iroh_blobs::Hash::from_str` on a 64-byte string, rendered back with
/// `Display`. Stated from the source: a 64-byte input is decoded with
/// `data_encoding::HEXLOWER`, whose table admits exactly `0-9a-f`, into the
/// 32 bytes of the hash, and `Display` writes those bytes as lower-case hex
/// again. Other lengths take the base32 path, which is never reached here.
#[verifier::external_body]
fn hash_from_hex(s: &str) -> (r: Option<String>)
    requires
        s.spec_bytes().len() == 64,
    ensures
        match r {
            Some(h) => hex_address(s@) && h@ == s@,
            None => !hex_address(s@),
        },
{
    match s.parse::<iroh_blobs::Hash>() {
        Ok(h) => Some(h.to_string()),
        Err(_) => None,
    }
}

/// A content address from the wire or from a record file, parsed the
/// guarded way: only a 64-byte string reaches the parse. Any other length
/// is read as base32, which can panic, and one record file a hand edit left
/// in any shape would then take every other pending delivery down with it.
pub fn parse_hash(s: &str) -> (r: Option<String>)
    ensures
        match r {
            Some(h) => hex_address(s@) && h@ == s@,
            None => !hex_address(s@),
        },
{
    if s.as_bytes().len() != 64 {
        proof {
            if hex_address(s@) {
                assert(vstd::utf8::is_ascii_chars(s@)) by {
                    assert forall|i: int| 0 <= i < s@.len() implies '\0' <= #[trigger] s@[i] <= '\u{7f}' by {
                        assert(is_lower_hex_digit(s@[i]));
                    }
                }
                vstd::utf8::is_ascii_chars_encode_utf8(s@);
            }
        }
        return None;
    }
    hash_from_hex(s)
}

/// Before a queued send's bytes are staged under its pin: the pin's name,
/// when the store says it is free. A name the store already holds is the
/// only thing keeping an accepted send's bytes on disk, and a tag table
/// that will not answer cannot say the name is free. `existing` is what
/// looking the tag up gave: whether it exists, or why the lookup failed.
pub fn stage_precheck(id: &str, existing: Result<bool, String>) -> (r: Result<String, String>)
    ensures
        match existing {
            Ok(false) => r matches Ok(t) && t@ == crate::outbox::tag_of(id@),
            Ok(true) => r matches Err(m) && m@ == "cannot stage file: "@ + crate::outbox::tag_of(id@)
                + " already pins the bytes of a send that was accepted earlier, and staging over it would lose them"@,
            Err(e) => r matches Err(m) && m@ == "cannot stage file: cannot read the tag "@ + crate::outbox::tag_of(id@)
                + ": "@ + e@,
        },
{
    let tag = crate::outbox::tag_name(id);
    match existing {
        Ok(false) => Ok(tag),
        Ok(true) => {
            let mut m = own("cannot stage file: ");
            append(&mut m, tag.as_str());
            append(&mut m, " already pins the bytes of a send that was accepted earlier, and staging over it would lose them");
            Err(m)
        },
        Err(e) => {
            let mut m = own("cannot stage file: cannot read the tag ");
            append(&mut m, tag.as_str());
            append(&mut m, ": ");
            append(&mut m, e.as_str());
            Err(m)
        },
    }
}

// ── Tickets ─────────────────────────────────────────────────────────────────

/// What a ticket string names, in plain values: the provider's node id (hex)
/// and its short form, the content address (hex), and whether it names one
/// raw blob.
pub struct TicketFacts {
    pub node_id: String,
    pub node_id_short: String,
    pub hash: String,
    pub raw: bool,
}

/// What `BlobTicket::from_str` makes of a string: the node id, the content
/// address and whether the format is raw, or the parse error's text.
pub uninterp spec fn ticket_parse(s: Seq<char>) -> Result<(Seq<char>, Seq<char>, bool), Seq<char>>;

/// `BlobTicket::from_str`. The decoding (base32, postcard) is named, not
/// stated. Stated from the source: a node id renders as 64 lower-case hex
/// characters, its short form is the first ten of them (five bytes), and a
/// content address renders as 64 hex characters.
#[verifier::external_body]
fn parse_ticket(s: &str) -> (r: Result<TicketFacts, String>)
    ensures
        match r {
            Ok(t) => ticket_parse(s@) == Ok::<(Seq<char>, Seq<char>, bool), Seq<char>>((t.node_id@, t.hash@, t.raw))
                && t.node_id@.len() == 64 && t.node_id_short@ == t.node_id@.take(10) && t.hash@.len() == 64,
            Err(e) => ticket_parse(s@) == Err::<(Seq<char>, Seq<char>, bool), Seq<char>>(e@),
        },
{
    match s.parse::<BlobTicket>() {
        Ok(t) => Ok(TicketFacts {
            node_id: t.addr().id.to_string(),
            node_id_short: t.addr().id.fmt_short().to_string(),
            hash: t.hash().to_string(),
            raw: matches!(t.format(), BlobFormat::Raw),
        }),
        Err(e) => Err(e.to_string()),
    }
}

/// The ticket policy: a ticket that parses and names one raw blob, as its
/// node id and content address, or why it is refused.
pub open spec fn raw_ticket(s: Seq<char>) -> Result<(Seq<char>, Seq<char>), Seq<char>> {
    match ticket_parse(s) {
        Err(e) => Err("invalid beam ticket: "@ + e),
        Ok((node, hash, raw)) => if raw {
            Ok((node, hash))
        } else {
            Err("beam v1 supports single-file tickets only"@)
        },
    }
}

fn parse_raw_ticket(s: &str) -> (r: Result<TicketFacts, String>)
    ensures
        match r {
            Ok(t) => raw_ticket(s@) == Ok::<(Seq<char>, Seq<char>), Seq<char>>((t.node_id@, t.hash@))
                && t.node_id_short@ == t.node_id@.take(10),
            Err(e) => raw_ticket(s@) == Err::<(Seq<char>, Seq<char>), Seq<char>>(e@),
        },
{
    match parse_ticket(s) {
        Err(e) => {
            let mut m = own("invalid beam ticket: ");
            append(&mut m, e.as_str());
            Err(m)
        },
        Ok(t) => {
            if t.raw {
                Ok(t)
            } else {
                Err(own("beam v1 supports single-file tickets only"))
            }
        },
    }
}

/// Sender-side ticket facts shown in the receiver's confirm dialog.
#[derive(Debug, PartialEq, Eq)]
pub struct TicketInfo {
    pub node_id: String,
    pub node_id_short: String,
    pub hash: String,
}

/// Parse a ticket string into the facts the confirm dialog shows. Pure
/// parse: no endpoint, no network.
pub fn ticket_info(ticket: &str) -> (r: Result<TicketInfo, String>)
    ensures
        match r {
            Ok(i) => raw_ticket(ticket@) == Ok::<(Seq<char>, Seq<char>), Seq<char>>((i.node_id@, i.hash@))
                && i.node_id_short@ == i.node_id@.take(10),
            Err(e) => raw_ticket(ticket@) == Err::<(Seq<char>, Seq<char>), Seq<char>>(e@),
        },
{
    match parse_raw_ticket(ticket) {
        Err(e) => Err(e),
        Ok(t) => Ok(TicketInfo { node_id: t.node_id, node_id_short: t.node_id_short, hash: t.hash }),
    }
}

/// What a pushed ticket is admitted as, for a push from `from` announcing
/// `claimed`: the content address, or the refusal.
pub open spec fn push_ticket_verdict(s: Seq<char>, from: Seq<char>, claimed: Seq<char>) -> Result<Seq<char>, Seq<char>> {
    match raw_ticket(s) {
        Err(e) => Err(e),
        Ok((node, hash)) => if node != from {
            Err("a pushed ticket must name the pushing peer"@)
        } else if hash != claimed {
            Err("the pushed ticket does not match the announced content"@)
        } else {
            Ok(hash)
        },
    }
}

/// The push-side ticket policy. A pushed ticket tells the host to DIAL
/// somebody, so it is admitted only when it names one raw blob, its node is
/// the peer that sent the frame (`from`, in hex), and its content address is
/// the announced one. Returns the verified content address (hex).
pub fn verify_push_ticket(ticket: &str, from: &str, claimed_hash: &str) -> (r: Result<String, String>)
    ensures
        match r {
            Ok(h) => push_ticket_verdict(ticket@, from@, claimed_hash@) == Ok::<Seq<char>, Seq<char>>(h@),
            Err(e) => push_ticket_verdict(ticket@, from@, claimed_hash@) == Err::<Seq<char>, Seq<char>>(e@),
        },
{
    let t = match parse_raw_ticket(ticket) {
        Err(e) => {
            return Err(e);
        },
        Ok(t) => t,
    };
    if !same_text(t.node_id.as_str(), from) {
        return Err(own("a pushed ticket must name the pushing peer"));
    }
    if !same_text(t.hash.as_str(), claimed_hash) {
        return Err(own("the pushed ticket does not match the announced content"));
    }
    Ok(t.hash)
}


// ── The offers registry ─────────────────────────────────────────────────────

/// One active offer, as surfaced to the user.
#[derive(Debug, PartialEq, Eq)]
pub struct OfferInfo {
    /// The blob's content address (hex): one offer per content.
    pub id: String,
    pub path: String,
    pub name: String,
    pub size: u64,
    pub ticket: String,
    /// The full `vlerv://receive?...` link the user shares.
    pub link: String,
    pub created_at: u64,
    pub expires_at: u64,
    pub fetches: u64,
}

impl Clone for OfferInfo {
    fn clone(&self) -> (r: Self)
        ensures
            r == *self,
    {
        OfferInfo {
            id: self.id.clone(),
            path: self.path.clone(),
            name: self.name.clone(),
            size: self.size,
            ticket: self.ticket.clone(),
            link: self.link.clone(),
            created_at: self.created_at,
            expires_at: self.expires_at,
            fetches: self.fetches,
        }
    }
}

/// One offer and the name of the store tag that pins its bytes.
pub struct OfferEntry {
    pub info: OfferInfo,
    pub tag: String,
}

/// The infos of the offers still live at `now`, in registry order.
pub open spec fn live_offers(es: Seq<OfferEntry>, now: u64) -> Seq<OfferInfo>
    decreases es.len(),
{
    if es.len() == 0 {
        Seq::empty()
    } else if es.last().info.expires_at > now {
        live_offers(es.drop_last(), now).push(es.last().info)
    } else {
        live_offers(es.drop_last(), now)
    }
}

/// The tags of the offers whose time is up at `now`, in registry order.
pub open spec fn expired_tags(es: Seq<OfferEntry>, now: u64) -> Seq<Seq<char>>
    decreases es.len(),
{
    if es.len() == 0 {
        Seq::empty()
    } else if es.last().info.expires_at <= now {
        expired_tags(es.drop_last(), now).push(es.last().tag@)
    } else {
        expired_tags(es.drop_last(), now)
    }
}

/// The offers still live at `now`, in registry order.
pub open spec fn live_entries(es: Seq<OfferEntry>, now: u64) -> Seq<OfferEntry>
    decreases es.len(),
{
    if es.len() == 0 {
        Seq::empty()
    } else if es.last().info.expires_at > now {
        live_entries(es.drop_last(), now).push(es.last())
    } else {
        live_entries(es.drop_last(), now)
    }
}

/// Offer ids are distinct.
pub open spec fn distinct_ids(es: Seq<OfferEntry>) -> bool {
    forall|i: int, j: int| 0 <= i < j < es.len() ==> (#[trigger] es[i]).info.id@ != (#[trigger] es[j]).info.id@
}

/// Newest first.
pub open spec fn newest_first(s: Seq<OfferInfo>) -> bool {
    forall|i: int, j: int| 0 <= i < j < s.len() ==> (#[trigger] s[i]).created_at >= (#[trigger] s[j]).created_at
}

/// The index of the offer with this id, when there is one.
pub open spec fn offer_index(es: Seq<OfferEntry>, id: Seq<char>) -> int
    decreases es.len(),
{
    if es.len() == 0 {
        -1
    } else if es.last().info.id@ == id {
        es.len() - 1
    } else {
        offer_index(es.drop_last(), id)
    }
}

proof fn lemma_offer_index(es: Seq<OfferEntry>, id: Seq<char>)
    ensures
        -1 <= offer_index(es, id) < es.len(),
        offer_index(es, id) >= 0 ==> es[offer_index(es, id)].info.id@ == id,
        offer_index(es, id) == -1 ==> forall|k: int| 0 <= k < es.len() ==> (#[trigger] es[k]).info.id@ != id,
    decreases es.len(),
{
    if es.len() > 0 && es.last().info.id@ != id {
        lemma_offer_index(es.drop_last(), id);
        assert forall|k: int| 0 <= k < es.len() - 1 implies es[k] == es.drop_last()[k] by {}
    }
}

/// The offers registry. The request gate reads it per incoming request;
/// commands mutate it.
pub struct Offers {
    entries: Vec<OfferEntry>,
}

impl Offers {
    /// Every offer, live or not, in registry order.
    pub closed spec fn entries(&self) -> Seq<OfferEntry> {
        self.entries@
    }

    pub fn new() -> (o: Offers)
        ensures
            o.entries().len() == 0,
    {
        Offers { entries: Vec::new() }
    }

    fn find(&self, id: &str) -> (r: Option<usize>)
        ensures
            match r {
                Some(i) => i == offer_index(self.entries(), id@) && i < self.entries().len(),
                None => offer_index(self.entries(), id@) == -1,
            },
    {
        let mut k = self.entries.len();
        proof {
            assert(self.entries@.subrange(0, k as int) =~= self.entries@);
        }
        while k > 0
            invariant
                k <= self.entries.len(),
                offer_index(self.entries@, id@) == offer_index(self.entries@.subrange(0, k as int), id@),
            decreases k,
        {
            if same_text(self.entries[k - 1].info.id.as_str(), id) {
                return Some(k - 1);
            }
            proof {
                assert(self.entries@.subrange(0, k as int).drop_last() =~= self.entries@.subrange(0, k - 1));
            }
            k -= 1;
        }
        None
    }

    /// Register an offer, returning the tag of the entry it displaced (the
    /// same content offered again) so the caller can delete it: that tag
    /// would otherwise pin the bytes forever, out of reach of stop and expiry.
    pub fn insert(&mut self, info: OfferInfo, tag: String) -> (r: Option<String>)
        requires
            distinct_ids(old(self).entries()),
        ensures
            distinct_ids(final(self).entries()),
            offer_index(old(self).entries(), info.id@) == -1 ==> r is None && final(self).entries()
                == old(self).entries().push(OfferEntry { info, tag }),
            offer_index(old(self).entries(), info.id@) >= 0 ==> r == Some(
                old(self).entries()[offer_index(old(self).entries(), info.id@)].tag,
            ) && final(self).entries() == old(self).entries().update(
                offer_index(old(self).entries(), info.id@),
                OfferEntry { info, tag },
            ),
    {
        proof {
            lemma_offer_index(self.entries@, info.id@);
        }
        let ghost e0 = self.entries@;
        let ghost entry = OfferEntry { info, tag };
        match self.find(info.id.as_str()) {
            None => {
                self.entries.push(OfferEntry { info, tag });
                proof {
                    assert forall|i: int, j: int| 0 <= i < j < self.entries@.len() implies (#[trigger] self.entries@[i]).info.id@ != (#[trigger] self.entries@[j]).info.id@ by {
                        if j == e0.len() {
                            assert(e0[i] == self.entries@[i]);
                        } else {
                            assert(e0[i] == self.entries@[i]);
                            assert(e0[j] == self.entries@[j]);
                        }
                    }
                }
                None
            },
            Some(i) => {
                let old_entry = self.entries.remove(i);
                self.entries.insert(i, OfferEntry { info, tag });
                proof {
                    assert(self.entries@ =~= e0.update(i as int, entry));
                    assert forall|a: int, b: int| 0 <= a < b < self.entries@.len() implies (#[trigger] self.entries@[a]).info.id@ != (#[trigger] self.entries@[b]).info.id@ by {
                        if a != i && b != i {
                            assert(e0[a] == self.entries@[a]);
                            assert(e0[b] == self.entries@[b]);
                        } else if a == i {
                            assert(e0[b] == self.entries@[b]);
                        } else {
                            assert(e0[a] == self.entries@[a]);
                        }
                    }
                }
                Some(old_entry.tag)
            },
        }
    }

    /// Revoke one offer by id, returning its tag. An offer id is the blob's
    /// content address, parsed the guarded way: any other id names nothing.
    pub fn remove(&mut self, id: &str) -> (r: Option<String>)
        requires
            distinct_ids(old(self).entries()),
        ensures
            distinct_ids(final(self).entries()),
            (!hex_address(id@) || offer_index(old(self).entries(), id@) == -1) ==> r is None
                && final(self).entries() == old(self).entries(),
            (hex_address(id@) && offer_index(old(self).entries(), id@) >= 0) ==> r == Some(
                old(self).entries()[offer_index(old(self).entries(), id@)].tag,
            ) && final(self).entries() == old(self).entries().remove(offer_index(old(self).entries(), id@)),
    {
        if parse_hash(id).is_none() {
            return None;
        }
        let ghost e0 = self.entries@;
        match self.find(id) {
            None => None,
            Some(i) => {
                let e = self.entries.remove(i);
                proof {
                    assert forall|a: int, b: int| 0 <= a < b < self.entries@.len() implies (#[trigger] self.entries@[a]).info.id@ != (#[trigger] self.entries@[b]).info.id@ by {
                        if b < i {
                            assert(e0[a] == self.entries@[a]);
                            assert(e0[b] == self.entries@[b]);
                        } else if a < i {
                            assert(e0[a] == self.entries@[a]);
                            assert(e0[b + 1] == self.entries@[b]);
                        } else {
                            assert(e0[a + 1] == self.entries@[a]);
                            assert(e0[b + 1] == self.entries@[b]);
                        }
                    }
                }
                Some(e.tag)
            },
        }
    }

    /// Drop every expired offer, returning their tags for cleanup.
    pub fn take_expired(&mut self, now: u64) -> (r: Vec<String>)
        requires
            distinct_ids(old(self).entries()),
        ensures
            distinct_ids(final(self).entries()),
            final(self).entries() == live_entries(old(self).entries(), now),
            crate::order::views(r@) == expired_tags(old(self).entries(), now),
    {
        let ghost e0 = self.entries@;
        let mut kept: Vec<OfferEntry> = Vec::new();
        let mut tags: Vec<String> = Vec::new();
        let mut rest: Vec<OfferEntry> = Vec::new();
        std::mem::swap(&mut rest, &mut self.entries);
        let mut i: usize = 0;
        let n = rest.len();
        assert(rest@.subrange(0, n as int) =~= rest@);
        assert(e0.take(0) =~= Seq::<OfferEntry>::empty());
        while rest.len() > 0
            invariant
                rest@ == e0.subrange(i as int, e0.len() as int),
                i + rest.len() == e0.len(),
                n == e0.len(),
                kept@ == live_entries(e0.take(i as int), now),
                crate::order::views(tags@) == expired_tags(e0.take(i as int), now),
            decreases rest.len(),
        {
            let e = rest.remove(0);
            proof {
                assert(e == e0[i as int]);
                assert(e0.take(i + 1).drop_last() =~= e0.take(i as int));
                assert(e0.take(i + 1).last() == e0[i as int]);
                assert(rest@ =~= e0.subrange(i + 1, e0.len() as int));
            }
            if e.info.expires_at <= now {
                let t = e.tag;
                let ghost before = tags@;
                tags.push(t);
                proof {
                    assert(crate::order::views(tags@) =~= crate::order::views(before).push(t@));
                }
            } else {
                kept.push(e);
            }
            i += 1;
        }
        proof {
            assert(e0.take(n as int) =~= e0);
            lemma_live_entries_distinct(e0, now);
        }
        self.entries = kept;
        tags
    }

    /// Active offers, newest first. Expired entries are left out; their tags
    /// are collected by the next mutating command.
    pub fn list(&self, now: u64) -> (r: Vec<OfferInfo>)
        ensures
            r@.to_multiset() == live_offers(self.entries(), now).to_multiset(),
            newest_first(r@),
    {
        let mut out: Vec<OfferInfo> = Vec::new();
        let mut i: usize = 0;
        assert(self.entries@.take(0) =~= Seq::<OfferEntry>::empty());
        while i < self.entries.len()
            invariant
                i <= self.entries.len(),
                out@.to_multiset() == live_offers(self.entries@.take(i as int), now).to_multiset(),
                newest_first(out@),
            decreases self.entries.len() - i,
        {
            proof {
                assert(self.entries@.take(i + 1).drop_last() =~= self.entries@.take(i as int));
                assert(self.entries@.take(i + 1).last() == self.entries@[i as int]);
            }
            if self.entries[i].info.expires_at > now {
                let info = self.entries[i].info.clone();
                let c = info.created_at;
                let mut j: usize = 0;
                while j < out.len() && out[j].created_at >= c
                    invariant
                        j <= out.len(),
                        forall|k: int| 0 <= k < j ==> (#[trigger] out@[k]).created_at >= c,
                    decreases out.len() - j,
                {
                    j += 1;
                }
                let ghost o0 = out@;
                out.insert(j, info);
                proof {
                    vstd::seq_lib::to_multiset_insert(o0, j as int, info);
                    live_offers(self.entries@.take(i as int), now).to_multiset_ensures();
                    vstd::seq_lib::to_multiset_build(live_offers(self.entries@.take(i as int), now), info);
                    assert forall|a: int, b: int| 0 <= a < b < out@.len() implies (#[trigger] out@[a]).created_at >= (#[trigger] out@[b]).created_at by {
                        if b < j {
                        } else if a < j && b == j {
                        } else if a < j {
                            assert(out@[b] == o0[b - 1]);
                        } else if a == j {
                            assert(out@[b] == o0[b - 1]);
                            if j < o0.len() {
                                assert(o0[j as int].created_at < c);
                            }
                        } else {
                            assert(out@[a] == o0[a - 1]);
                            assert(out@[b] == o0[b - 1]);
                        }
                    }
                }
            }
            i += 1;
        }
        assert(self.entries@.take(self.entries.len() as int) =~= self.entries@);
        out
    }

    /// Check and count one incoming request: admitted only for a plain
    /// full-blob request whose content is an active, unexpired offer.
    /// Expired and never-offered answer the same.
    pub fn count_fetch(&mut self, hash: &str, is_blob_request: bool, now: u64) -> (r: bool)
        requires
            distinct_ids(old(self).entries()),
            forall|k: int| 0 <= k < old(self).entries().len() ==> (#[trigger] old(self).entries()[k]).info.fetches < u64::MAX,
        ensures
            distinct_ids(final(self).entries()),
            r == (is_blob_request && offer_index(old(self).entries(), hash@) >= 0
                && old(self).entries()[offer_index(old(self).entries(), hash@)].info.expires_at > now),
            r ==> {
                let i = offer_index(old(self).entries(), hash@);
                let e = old(self).entries()[i];
                final(self).entries() == old(self).entries().update(i, OfferEntry {
                    info: OfferInfo { fetches: (e.info.fetches + 1) as u64, ..e.info },
                    ..e
                })
            },
            !r ==> final(self).entries() == old(self).entries(),
    {
        if !is_blob_request {
            return false;
        }
        proof {
            lemma_offer_index(self.entries@, hash@);
        }
        match self.find(hash) {
            None => false,
            Some(i) => {
                if self.entries[i].info.expires_at > now {
                    let ghost e0 = self.entries@;
                    let mut e = self.entries.remove(i);
                    e.info.fetches = e.info.fetches + 1;
                    self.entries.insert(i, e);
                    proof {
                        assert(self.entries@ =~= e0.update(i as int, e));
                        assert forall|a: int, b: int| 0 <= a < b < self.entries@.len() implies (#[trigger] self.entries@[a]).info.id@ != (#[trigger] self.entries@[b]).info.id@ by {
                            if a != i {
                                assert(e0[a] == self.entries@[a]);
                            }
                            if b != i {
                                assert(e0[b] == self.entries@[b]);
                            }
                        }
                    }
                    true
                } else {
                    false
                }
            },
        }
    }
}

proof fn lemma_live_entries_distinct(es: Seq<OfferEntry>, now: u64)
    requires
        distinct_ids(es),
    ensures
        distinct_ids(live_entries(es, now)),
        forall|k: int| 0 <= k < live_entries(es, now).len() ==> es.contains(#[trigger] live_entries(es, now)[k]),
    decreases es.len(),
{
    if es.len() > 0 {
        let d = es.drop_last();
        assert(distinct_ids(d)) by {
            assert forall|i: int, j: int| 0 <= i < j < d.len() implies (#[trigger] d[i]).info.id@ != (#[trigger] d[j]).info.id@ by {
                assert(d[i] == es[i]);
                assert(d[j] == es[j]);
            }
        }
        lemma_live_entries_distinct(d, now);
        let l = live_entries(d, now);
        assert forall|k: int| 0 <= k < l.len() implies es.contains(#[trigger] l[k]) by {
            let m = choose|m: int| 0 <= m < d.len() && d[m] == l[k];
            assert(es[m] == l[k]);
        }
        if es.last().info.expires_at > now {
            let l2 = l.push(es.last());
            assert forall|i: int, j: int| 0 <= i < j < l2.len() implies (#[trigger] l2[i]).info.id@ != (#[trigger] l2[j]).info.id@ by {
                if j == l.len() {
                    assert(d.contains(l2[i]));
                    let m = choose|m: int| 0 <= m < d.len() && d[m] == l2[i];
                    assert(es[m] == l2[i]);
                    assert(es[es.len() - 1] == l2[j]);
                } else {
                    assert(l2[i] == l[i]);
                    assert(l2[j] == l[j]);
                }
            }
            assert forall|k: int| 0 <= k < l2.len() implies es.contains(#[trigger] l2[k]) by {
                if k == l.len() {
                    assert(es[es.len() - 1] == l2[k]);
                } else {
                    assert(l2[k] == l[k]);
                }
            }
        }
    }
}


// ── Offering a file ─────────────────────────────────────────────────────────

/// Emit a receive-progress event about once per this many bytes.
pub const PROGRESS_STRIDE_BYTES: u64 = 1048576;

/// A file that passed the offer policy.
#[derive(Debug, PartialEq, Eq)]
pub struct OfferCandidate {
    pub canonical: String,
    pub name: String,
    pub size: u64,
}

/// The refusal a file over the cap gets, in the units people read.
pub open spec fn too_big_to_beam(size: u64) -> Seq<char> {
    "file is "@ + human_bytes_spec(size) + " \u{2014} beam v1 caps at "@ + human_bytes_spec(HARD_CAP_BYTES)
}

/// The offer policy once the conservative root check has run: `found` is
/// the canonical path it admitted, with whether it is a regular file and
/// its length, or nothing when it refused or the file would not stat. A
/// regular file under the hard cap is offered under its own name
/// ("artifact" when the path has none).
pub fn offerable(found: Option<(String, bool, u64)>) -> (r: Result<OfferCandidate, String>)
    ensures
        match found {
            None => r matches Err(e) && e@ == "path not found or out of root"@,
            Some((canonical, is_file, size)) => if !is_file {
                r matches Err(e) && e@ == "only files can be beamed"@
            } else if size > HARD_CAP_BYTES {
                r matches Err(e) && e@ == too_big_to_beam(size)
            } else {
                r matches Ok(c) && c.canonical == canonical && c.size == size && c.name@ == match crate::paths::file_name(canonical@) {
                    Some(n) => n,
                    None => "artifact"@,
                }
            },
        },
{
    let (canonical, is_file, size) = match found {
        None => {
            return Err(own("path not found or out of root"));
        },
        Some(f) => f,
    };
    if !is_file {
        return Err(own("only files can be beamed"));
    }
    if size > HARD_CAP_BYTES {
        let mut m = own("file is ");
        append(&mut m, human_bytes(size).as_str());
        append(&mut m, " \u{2014} beam v1 caps at ");
        append(&mut m, human_bytes(HARD_CAP_BYTES).as_str());
        return Err(m);
    }
    let name = match crate::paths::base_name(canonical.as_str()) {
        Some(n) => n,
        None => own("artifact"),
    };
    Ok(OfferCandidate { canonical, name, size })
}

/// The offer a staged candidate becomes: content address as its id, the
/// link the user shares, and an expiry clamped to the TTL range.
pub fn offer_info(canonical: &str, name: &str, size: u64, id: String, ticket: String, created_at: u64, ttl_hours: u32) -> (o: OfferInfo)
    requires
        created_at <= u64::MAX - MAX_TTL_HOURS as u64 * 3600,
    ensures
        o.id == id,
        o.path@ == canonical@,
        o.name@ == name@,
        o.size == size,
        o.ticket == ticket,
        o.link@ == link_spec(ticket@, name, size),
        o.created_at == created_at,
        o.expires_at == created_at + clamp_ttl(ttl_hours) as u64 * 3600,
        o.fetches == 0,
{
    let link = build_link(ticket.as_str(), name, size);
    let ttl = offer_ttl_secs(ttl_hours);
    OfferInfo {
        id,
        path: own(canonical),
        name: own(name),
        size,
        link,
        ticket,
        created_at,
        expires_at: created_at + ttl,
        fetches: 0,
    }
}

// ── Sweeping tags ───────────────────────────────────────────────────────────

/// The names no record claims, in listing order.
pub open spec fn orphans(names: Seq<Seq<char>>, keep: Seq<Seq<char>>) -> Seq<Seq<char>>
    decreases names.len(),
{
    if names.len() == 0 {
        Seq::empty()
    } else {
        let r = orphans(names.drop_last(), keep);
        if keep.contains(names.last()) { r } else { r.push(names.last()) }
    }
}

/// Which listed tags a sweep deletes: every one `keep` does not name. A
/// listing that failed deletes nothing, which is the safe half: an unswept
/// tag costs disk, a wrongly swept one costs the user's file.
pub fn orphan_tags(listed: &Vec<String>, keep: &Vec<String>) -> (r: Vec<String>)
    ensures
        crate::order::views(r@) == orphans(crate::order::views(listed@), crate::order::views(keep@)),
{
    let mut out: Vec<String> = Vec::new();
    let mut i: usize = 0;
    while i < listed.len()
        invariant
            i <= listed.len(),
            crate::order::views(out@) == orphans(crate::order::views(listed@).take(i as int), crate::order::views(keep@)),
        decreases listed.len() - i,
    {
        proof {
            assert(crate::order::views(listed@).take(i + 1).drop_last() =~= crate::order::views(listed@).take(i as int));
            assert(crate::order::views(listed@).take(i + 1).last() == listed@[i as int]@);
        }
        if !crate::scope::contains_text(keep, listed[i].as_str()) {
            let ghost before = crate::order::views(out@);
            out.push(own(listed[i].as_str()));
            assert(crate::order::views(out@) =~= before.push(listed@[i as int]@));
        }
        i += 1;
    }
    assert(crate::order::views(listed@).take(listed.len() as int) =~= crate::order::views(listed@));
    out
}

// ── Receiving a blob ────────────────────────────────────────────────────────

/// One blob stream's running count. Leaves arrive in ascending offset order
/// for a full-blob request, and the cap is enforced on the ACTUAL bytes,
/// never on a claimed size.
pub struct BlobStream {
    pub written: u64,
    pub last_emitted: u64,
}

impl BlobStream {
    pub open spec fn wf(&self) -> bool {
        self.last_emitted <= self.written <= HARD_CAP_BYTES
    }

    pub fn new() -> (s: BlobStream)
        ensures
            s.wf(),
            s.written == 0,
            s.last_emitted == 0,
    {
        BlobStream { written: 0, last_emitted: 0 }
    }

    /// Take one leaf of `len` bytes at `offset`. Refused when it does not
    /// continue the stream or carries the total past the cap; otherwise the
    /// caller writes it, and reports progress when this returns a count.
    pub fn leaf(&mut self, offset: u64, len: u64) -> (r: Result<Option<u64>, String>)
        requires
            old(self).wf(),
        ensures
            final(self).wf(),
            offset != old(self).written ==> (r matches Err(e) && e@ == "transfer aborted: non-contiguous stream"@),
            offset == old(self).written && old(self).written + len > HARD_CAP_BYTES ==> (r matches Err(e)
                && e@ == "transfer aborted: content exceeds the "@ + human_bytes_spec(HARD_CAP_BYTES) + " cap"@),
            offset == old(self).written && old(self).written + len <= HARD_CAP_BYTES ==> {
                &&& final(self).written == old(self).written + len
                &&& if old(self).written + len - old(self).last_emitted >= PROGRESS_STRIDE_BYTES {
                    r == Ok::<Option<u64>, String>(Some(final(self).written)) && final(self).last_emitted == final(self).written
                } else {
                    r == Ok::<Option<u64>, String>(None) && final(self).last_emitted == old(self).last_emitted
                }
            },
    {
        if offset != self.written {
            return Err(own("transfer aborted: non-contiguous stream"));
        }
        if len > HARD_CAP_BYTES - self.written {
            let mut m = own("transfer aborted: content exceeds the ");
            append(&mut m, human_bytes(HARD_CAP_BYTES).as_str());
            append(&mut m, " cap");
            return Err(m);
        }
        self.written = self.written + len;
        if self.written - self.last_emitted >= PROGRESS_STRIDE_BYTES {
            self.last_emitted = self.written;
            Ok(Some(self.written))
        } else {
            Ok(None)
        }
    }
}


// ── Where a received file lands ─────────────────────────────────────────────

/// The index of the last '.' in `name`, or -1.
pub open spec fn last_dot(name: Seq<char>) -> int
    decreases name.len(),
{
    if name.len() == 0 {
        -1
    } else if name.last() == '.' {
        name.len() - 1
    } else {
        last_dot(name.drop_last())
    }
}

proof fn lemma_last_dot(name: Seq<char>)
    ensures
        -1 <= last_dot(name) < name.len(),
        last_dot(name) >= 0 ==> name[last_dot(name)] == '.',
        forall|k: int| last_dot(name) < k < name.len() ==> name[k] != '.',
    decreases name.len(),
{
    if name.len() > 0 && name.last() != '.' {
        lemma_last_dot(name.drop_last());
        assert forall|k: int| last_dot(name) < k < name.len() implies name[k] != '.' by {
            if k < name.len() - 1 {
                assert(name[k] == name.drop_last()[k]);
            }
        }
    }
}

/// A name's stem and its extension, the dot included: split at the last
/// dot unless that would leave the stem empty (a dotfile has no extension).
pub open spec fn stem_of(name: Seq<char>) -> Seq<char> {
    if last_dot(name) > 0 { name.take(last_dot(name)) } else { name }
}

pub open spec fn ext_of(name: Seq<char>) -> Seq<char> {
    if last_dot(name) > 0 { name.skip(last_dot(name)) } else { Seq::empty() }
}

/// The `n`th name tried for `name`: itself, then `stem-2.ext`, `stem-3.ext`…
pub open spec fn candidate(name: Seq<char>, n: nat) -> Seq<char> {
    if n <= 1 { name } else { stem_of(name) + "-"@ + dec(n) + ext_of(name) }
}

proof fn lemma_candidates_differ(name: Seq<char>, a: nat, b: nat)
    requires
        1 <= a,
        1 <= b,
        a != b,
    ensures
        candidate(name, a) != candidate(name, b),
{
    lemma_last_dot(name);
    reveal_strlit("-");
    assert(stem_of(name).len() + ext_of(name).len() == name.len());
    crate::text::lemma_dec_nonempty(a);
    crate::text::lemma_dec_nonempty(b);
    if a > 1 && b > 1 {
        if candidate(name, a) == candidate(name, b) {
            let st = stem_of(name);
            let ca = candidate(name, a);
            assert(ca.len() == st.len() + 1 + dec(a).len() + ext_of(name).len());
            assert(candidate(name, b).len() == st.len() + 1 + dec(b).len() + ext_of(name).len());
            assert(dec(a).len() == dec(b).len());
            assert(ca.subrange(st.len() + 1 as int, st.len() + 1 + dec(a).len() as int) =~= dec(a));
            assert(candidate(name, b).subrange(st.len() + 1 as int, st.len() + 1 + dec(b).len() as int) =~= dec(b));
            crate::text::lemma_dec_injective(a, b);
        }
    } else {
        let big = if a > 1 { a } else { b };
        assert(candidate(name, big).len() > name.len());
    }
}

/// Among the first `taken.len() + 1` candidates one is free: they all
/// differ, and `taken` cannot hold that many.
proof fn lemma_a_candidate_is_free(name: Seq<char>, taken: Seq<Seq<char>>)
    ensures
        exists|n: nat| 1 <= n <= taken.len() + 1 && !taken.contains(#[trigger] candidate(name, n)),
{
    if forall|n: nat| 1 <= n <= taken.len() + 1 ==> taken.contains(#[trigger] candidate(name, n)) {
        let k = taken.len() as int;
        let x = vstd::set_lib::set_int_range(1, k + 2);
        vstd::set_lib::lemma_int_range(1, k + 2);
        let f = |i: int| candidate(name, i as nat);
        assert(vstd::relations::injective_on(f, x)) by {
            assert forall|i: int, j: int| x.contains(i) && x.contains(j) && #[trigger] f(i) == #[trigger] f(j) implies i == j by {
                if i != j {
                    lemma_candidates_differ(name, i as nat, j as nat);
                }
            }
        }
        let y = x.map(f);
        vstd::set_lib::lemma_map_size(x, y, f);
        let t = taken.to_set();
        assert(y.subset_of(t)) by {
            assert forall|c: Seq<char>| y.contains(c) implies t.contains(c) by {
                let i = choose|i: int| x.contains(i) && f(i) == c;
                assert(taken.contains(candidate(name, i as nat)));
            }
        }
        taken.lemma_cardinality_of_set();
        vstd::set_lib::lemma_len_subset(y, t);
        assert(false);
    }
}

/// The first free path for `name` in `dir`, whose current entries are
/// `taken`: `report.html`, then `report-2.html`, `report-3.html`…
pub open spec fn unique_target_spec(dir: Seq<char>, name: Seq<char>, taken: Seq<Seq<char>>, n: nat) -> bool {
    &&& 1 <= n
    &&& !taken.contains(candidate(name, n))
    &&& forall|m: nat| 1 <= m < n ==> taken.contains(#[trigger] candidate(name, m))
}

fn candidate_string(name: &str, n: u64) -> (r: String)
    requires
        n >= 1,
    ensures
        r@ == candidate(name@, n as nat),
{
    if n == 1 {
        return own(name);
    }
    let v = chars_of(name);
    proof {
        lemma_last_dot(name@);
    }
    let mut d: usize = v.len();
    assert(v@.take(d as int) =~= v@);
    while d > 0 && v[d - 1] != '.'
        invariant
            d <= v.len(),
            v@ == name@,
            last_dot(name@) == last_dot(v@.take(d as int)),
        decreases d,
    {
        assert(v@.take(d as int).drop_last() =~= v@.take(d - 1));
        d -= 1;
    }
    let ghost ld = last_dot(name@);
    proof {
        if d > 0 {
            assert(v@.take(d as int).last() == '.');
            assert(ld == d - 1);
        } else {
            assert(v@.take(0) =~= Seq::<char>::empty());
            assert(ld == -1);
        }
    }
    let mut r = String::new();
    if d > 1 {
        crate::text::push_range(&mut r, &v, 0, d - 1);
        append(&mut r, "-");
        crate::text::push_dec(&mut r, n);
        crate::text::push_range(&mut r, &v, d - 1, v.len());
        proof {
            assert(v@.subrange(0, d - 1) =~= name@.take(ld));
            assert(v@.subrange(d - 1, v.len() as int) =~= name@.skip(ld));
        }
    } else {
        crate::text::push_range(&mut r, &v, 0, v.len());
        append(&mut r, "-");
        crate::text::push_dec(&mut r, n);
        proof {
            assert(v@.subrange(0, v.len() as int) =~= name@);
        }
    }
    proof {
        assert(r@ =~= candidate(name@, n as nat));
    }
    r
}

/// The first free path for `name` in `dir`. `taken` lists the names already
/// in `dir`; the search always ends, because among the first
/// `taken.len() + 1` names tried one is free.
pub fn unique_target_path(dir: &str, name: &str, taken: &Vec<String>) -> (r: String)
    requires
        taken@.len() < u64::MAX,
    ensures
        exists|n: nat| unique_target_spec(dir@, name@, crate::order::views(taken@), n)
            && r@ == crate::paths::join(dir@, #[trigger] candidate(name@, n)),
{
    let ghost t = crate::order::views(taken@);
    proof {
        lemma_a_candidate_is_free(name@, t);
    }
    let mut n: u64 = 1;
    loop
        invariant
            1 <= n <= taken@.len() + 1,
            t == crate::order::views(taken@),
            taken@.len() < u64::MAX,
            exists|m: nat| 1 <= m <= taken@.len() + 1 && !t.contains(#[trigger] candidate(name@, m)),
            forall|m: nat| 1 <= m < n ==> t.contains(#[trigger] candidate(name@, m)),
        decreases taken@.len() + 1 - n,
    {
        let c = candidate_string(name, n);
        if !crate::scope::contains_text(taken, c.as_str()) {
            let r = crate::paths::join_path(dir, c.as_str());
            assert(unique_target_spec(dir@, name@, t, n as nat));
            return r;
        }
        if n == taken.len() as u64 + 1 {
            proof {
                let m = choose|m: nat| 1 <= m <= taken@.len() + 1 && !t.contains(#[trigger] candidate(name@, m));
                if m < n {
                    assert(t.contains(candidate(name@, m)));
                }
                assert(false);
            }
        }
        n = n + 1;
    }
}


// ── The received folder ─────────────────────────────────────────────────────

/// Progress of one receive: the bytes actually measured so far. No total:
/// the only size on hand is the sender's unverified hint.
#[derive(Debug, PartialEq, Eq)]
pub struct ProgressEvent {
    pub hash: String,
    pub received: u64,
}

/// A completed receive.
#[derive(Debug, PartialEq, Eq)]
pub struct ReceivedFile {
    pub path: String,
    pub name: String,
    pub size: u64,
    pub hash: String,
}

/// `<hash><ext>.<pid>.<seq>.partial`.
pub open spec fn partial_name_spec(hash_hex: Seq<char>, ext: Seq<char>, pid: nat, seq: nat) -> Seq<char> {
    hash_hex + ext + "."@ + dec(pid) + "."@ + dec(seq) + ".partial"@
}

/// The temp name for one in-flight download. Unique per call, not per
/// content address: two receives of one blob run side by side, and a shared
/// name would interleave their writes. `pid` is this process's id and `seq`
/// a counter the caller draws once per download.
pub fn partial_name(hash_hex: &str, ext: &str, pid: u32, seq: u64) -> (r: String)
    ensures
        r@ == partial_name_spec(hash_hex@, ext@, pid as nat, seq as nat),
{
    let mut r = own(hash_hex);
    append(&mut r, ext);
    append(&mut r, ".");
    push_dec(&mut r, pid as u64);
    append(&mut r, ".");
    push_dec(&mut r, seq);
    append(&mut r, ".partial");
    proof {
        reveal_strlit(".");
        reveal_strlit(".partial");
    }
    r
}

/// Two downloads whose counters differ never share a temp name.
pub proof fn law_partial_names_differ_by_counter(hash_hex: Seq<char>, ext: Seq<char>, pid: nat, a: nat, b: nat)
    requires
        a != b,
    ensures
        partial_name_spec(hash_hex, ext, pid, a) != partial_name_spec(hash_hex, ext, pid, b),
{
    let pa = hash_hex + ext + "."@ + dec(pid) + "."@;
    let sa = dec(a) + ".partial"@;
    let sb = dec(b) + ".partial"@;
    assert(partial_name_spec(hash_hex, ext, pid, a) =~= pa + sa);
    assert(partial_name_spec(hash_hex, ext, pid, b) =~= pa + sb);
    if pa + sa == pa + sb {
        assert(sa =~= (pa + sa).subrange(pa.len() as int, (pa + sa).len() as int));
        assert(sb =~= (pa + sb).subrange(pa.len() as int, (pa + sb).len() as int));
        assert(dec(a).len() == dec(b).len());
        assert(dec(a) =~= sa.subrange(0, dec(a).len() as int));
        assert(dec(b) =~= sb.subrange(0, dec(b).len() as int));
        crate::text::lemma_dec_injective(a, b);
    }
}

/// How many past beams the Received list shows.
pub const RECEIVED_CAP: usize = 100;

/// One past beam in the received tree.
#[derive(Debug, PartialEq, Eq)]
pub struct ReceivedEntry {
    pub path: String,
    pub name: String,
    pub size: u64,
    pub received_at: u64,
}

/// A landed file as the list shows it: named by its path's last component.
pub fn received_entry(path: String, size: u64, received_at: u64) -> (e: ReceivedEntry)
    ensures
        e.path == path,
        e.name@ == match crate::paths::file_name(path@) {
            Some(n) => n,
            None => Seq::empty(),
        },
        e.size == size,
        e.received_at == received_at,
{
    let name = match crate::paths::base_name(path.as_str()) {
        Some(n) => n,
        None => String::new(),
    };
    ReceivedEntry { path, name, size, received_at }
}

/// Day directories are named `YYYY-MM-DD`, so name order is date order.
/// The visible ones, in the order given (a leading dot marks a partial).
pub open spec fn visible_days(names: Seq<String>) -> Seq<String>
    decreases names.len(),
{
    if names.len() == 0 {
        Seq::empty()
    } else {
        let r = visible_days(names.drop_last());
        let n = names.last()@;
        if n.len() > 0 && n[0] == '.' { r } else { r.push(names.last()) }
    }
}

fn str_less(a: &str, b: &str) -> (r: bool)
    ensures
        r == crate::order::seq_lt(a@, b@),
{
    match crate::order::compare_str(a, b) {
        crate::order::Rank::Less => true,
        _ => false,
    }
}

pub open spec fn names_descending(s: Seq<String>) -> bool {
    forall|i: int, j: int| 0 <= i < j < s.len() ==> !crate::order::seq_lt((#[trigger] s[i])@, (#[trigger] s[j])@)
}

/// The day directories to walk, newest first: walking newest-day-first and
/// stopping at the cap bounds the stat count however large the tree grows.
pub fn day_order(names: Vec<String>) -> (r: Vec<String>)
    ensures
        r@.to_multiset() == visible_days(names@).to_multiset(),
        names_descending(r@),
{
    broadcast use vstd::seq_lib::to_multiset_insert;
    let mut rest = names;
    let ghost orig = rest@;
    let mut out: Vec<String> = Vec::new();
    let ghost mut k: int = 0;
    assert(orig.take(0) =~= Seq::<String>::empty());
    assert(rest@ =~= orig.skip(0));
    while rest.len() > 0
        invariant
            0 <= k <= orig.len(),
            rest@ == orig.skip(k),
            out@.to_multiset() == visible_days(orig.take(k)).to_multiset(),
            names_descending(out@),
        decreases rest.len(),
    {
        let d = rest.remove(0);
        proof {
            assert(d == orig[k]);
            assert(rest@ =~= orig.skip(k + 1));
            assert(orig.take(k + 1).drop_last() =~= orig.take(k));
            assert(orig.take(k + 1).last() == d);
        }
        let v = chars_of(d.as_str());
        if v.len() > 0 && v[0] == '.' {
        } else {
            let mut pos: usize = 0;
            while pos < out.len() && !str_less(out[pos].as_str(), d.as_str())
                invariant
                    pos <= out.len(),
                    forall|m: int| 0 <= m < pos ==> !crate::order::seq_lt((#[trigger] out@[m])@, d@),
                decreases out.len() - pos,
            {
                pos += 1;
            }
            let ghost before = out@;
            proof {
                vstd::seq_lib::to_multiset_build(visible_days(orig.take(k)), d);
            }
            out.insert(pos, d);
            proof {
                assert(out@ =~= before.insert(pos as int, d));
                vstd::seq_lib::to_multiset_insert(before, pos as int, d);
                assert forall|i: int, j: int| 0 <= i < j < out@.len() implies !crate::order::seq_lt((#[trigger] out@[i])@, (#[trigger] out@[j])@) by {
                    if j < pos {
                        assert(out@[i] == before[i] && out@[j] == before[j]);
                    } else if j == pos {
                        assert(out@[i] == before[i]);
                    } else if i < pos {
                        assert(out@[i] == before[i] && out@[j] == before[j - 1]);
                    } else if i == pos {
                        assert(out@[j] == before[j - 1]);
                        assert(crate::order::seq_lt(before[pos as int]@, d@));
                        crate::order::lemma_lt_total(before[pos as int]@, before[j - 1]@);
                        crate::order::lemma_lt_transitive(before[j - 1]@, before[pos as int]@, d@);
                        crate::order::lemma_lt_asymmetric(before[j - 1]@, d@);
                        if pos < j - 1 {
                            assert(!crate::order::seq_lt(before[pos as int]@, before[j - 1]@));
                        }
                    } else {
                        assert(out@[i] == before[i - 1] && out@[j] == before[j - 1]);
                    }
                }
            }
        }
        proof {
            k = k + 1;
        }
    }
    proof {
        assert(orig.take(k) =~= orig);
    }
    out
}

pub open spec fn newest_received_first(s: Seq<ReceivedEntry>) -> bool {
    forall|i: int, j: int| 0 <= i < j < s.len() ==> (#[trigger] s[i]).received_at >= (#[trigger] s[j]).received_at
}

fn sort_received(day: Vec<ReceivedEntry>) -> (r: Vec<ReceivedEntry>)
    ensures
        r@.to_multiset() == day@.to_multiset(),
        newest_received_first(r@),
{
    broadcast use vstd::seq_lib::to_multiset_insert;
    let mut rest = day;
    let ghost orig = rest@;
    let mut out: Vec<ReceivedEntry> = Vec::new();
    let ghost mut k: int = 0;
    assert(orig.take(0) =~= Seq::<ReceivedEntry>::empty());
    assert(rest@ =~= orig.skip(0));
    while rest.len() > 0
        invariant
            0 <= k <= orig.len(),
            rest@ == orig.skip(k),
            out@.to_multiset() == orig.take(k).to_multiset(),
            newest_received_first(out@),
        decreases rest.len(),
    {
        let p = rest.remove(0);
        proof {
            assert(p == orig[k]);
            assert(rest@ =~= orig.skip(k + 1));
            assert(orig.take(k + 1) =~= orig.take(k).push(p));
            vstd::seq_lib::to_multiset_build(orig.take(k), p);
        }
        let mut pos: usize = 0;
        while pos < out.len() && out[pos].received_at >= p.received_at
            invariant
                pos <= out.len(),
                forall|m: int| 0 <= m < pos ==> (#[trigger] out@[m]).received_at >= p.received_at,
            decreases out.len() - pos,
        {
            pos += 1;
        }
        let ghost before = out@;
        out.insert(pos, p);
        proof {
            assert(out@ =~= before.insert(pos as int, p));
            vstd::seq_lib::to_multiset_insert(before, pos as int, p);
            assert forall|i: int, j: int| 0 <= i < j < out@.len() implies (#[trigger] out@[i]).received_at >= (#[trigger] out@[j]).received_at by {
                if j < pos {
                    assert(out@[i] == before[i] && out@[j] == before[j]);
                } else if j == pos {
                    assert(out@[i] == before[i]);
                } else if i < pos {
                    assert(out@[i] == before[i] && out@[j] == before[j - 1]);
                } else if i == pos {
                    assert(out@[j] == before[j - 1]);
                } else {
                    assert(out@[i] == before[i - 1] && out@[j] == before[j - 1]);
                }
            }
            k = k + 1;
        }
    }
    proof {
        assert(orig.take(k) =~= orig);
    }
    out
}

/// Add one day's files to the list, newest first within the day, capped at
/// `RECEIVED_CAP`; the flag says whether to walk the next day.
pub fn add_day(acc: Vec<ReceivedEntry>, day: Vec<ReceivedEntry>) -> (r: (Vec<ReceivedEntry>, bool))
    ensures
        exists|s: Seq<ReceivedEntry>| #[trigger] newest_received_first(s) && s.to_multiset() == day@.to_multiset()
            && r.0@ == (acc@ + s).take(if acc@.len() + s.len() > RECEIVED_CAP { RECEIVED_CAP as int } else { (acc@.len() + s.len()) as int }),
        r.1 == (acc@.len() + day@.len() < RECEIVED_CAP),
{
    let acc_len = acc.len();
    let day_len = day.len();
    let more = acc_len < RECEIVED_CAP && day_len < RECEIVED_CAP - acc_len;
    let sorted = sort_received(day);
    let ghost s = sorted@;
    proof {
        vstd::seq_lib::to_multiset_len(s);
        vstd::seq_lib::to_multiset_len(day@);
    }
    let mut out: Vec<ReceivedEntry> = Vec::new();
    let mut src = acc;
    let ghost a = src@;
    let ghost total: int = if a.len() + s.len() > RECEIVED_CAP { RECEIVED_CAP as int } else { (a.len() + s.len()) as int };
    let ghost both = a + s;
    let ghost mut k: int = 0;
    assert(src@ =~= both.take(a.len() as int).skip(0));
    assert(both.take(0) =~= Seq::<ReceivedEntry>::empty());
    while src.len() > 0 && out.len() < RECEIVED_CAP
        invariant
            0 <= k <= a.len(),
            k <= RECEIVED_CAP,
            both == a + s,
            src@ == a.skip(k),
            out@ == both.take(k),
        decreases src.len(),
    {
        let e = src.remove(0);
        proof {
            assert(e == a[k]);
            assert(src@ =~= a.skip(k + 1));
            assert(both[k] == a[k]);
        }
        out.push(e);
        proof {
            assert(out@ =~= both.take(k + 1));
            k = k + 1;
        }
    }
    let mut rest = sorted;
    let ghost mut m: int = 0;
    assert(rest@ =~= s.skip(0));
    while rest.len() > 0 && out.len() < RECEIVED_CAP
        invariant
            0 <= m <= s.len(),
            rest@ == s.skip(m),
            out@.len() <= RECEIVED_CAP,
            out@.len() < RECEIVED_CAP ==> k == a.len(),
            m > 0 ==> k == a.len(),
            out@ == both.take(k + m),
            both == a + s,
        decreases rest.len(),
    {
        let e = rest.remove(0);
        proof {
            assert(e == s[m]);
            assert(rest@ =~= s.skip(m + 1));
            assert(both[k + m] == s[m]);
        }
        out.push(e);
        proof {
            assert(out@ =~= both.take(k + m + 1));
            m = m + 1;
        }
    }
    proof {
        assert(out@ =~= both.take(total));
    }
    (out, more)
}

} // verus!
