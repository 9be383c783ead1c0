//! The outbox — one record per accepted-but-undelivered send.
//!
//! This module is the spool's state and every rule it keeps: which files in
//! the directory are records, which are quarantined, which ids a run may
//! mint, what fits, and which pins a sweep must keep. Every mutation takes
//! the write it depends on as an argument and runs it FIRST: a record this
//! spool holds in memory but never wrote is a promise no restart can keep.

use vstd::prelude::*;
use crate::text::{
    append, chars_of, dec, dec_padded, dec_string, lemma_dec_nonempty, own, push_char,
    push_dec_padded, string_of,
};
use crate::order::{
    compare_str, insert_sorted_unique, same_text, lemma_lt_asymmetric, lemma_lt_irreflexive,
    lemma_lt_transitive, seq_lt, strictly_sorted, views, Rank,
};
use crate::beam::{human_bytes, human_bytes_spec};
use crate::paths::{join, join_path};

verus! {

/// On-disk schema version of one record.
pub const OUTBOX_SCHEMA: u32 = 1;

/// The prefix every pin this spool owns is named under.
pub const TAG_PREFIX: &'static str = "outbox/";

/// How many records the spool holds. A full spool refuses the send.
pub const MAX_RECORDS: usize = 64;

/// Total staged bytes the spool may hold.
pub const MAX_SPOOL_BYTES: u64 = 1073741824;

/// How long an undelivered record is kept: one week.
pub const RECORD_TTL_SECS: u64 = 604800;

/// How often the drain wakes on its own, in seconds.
pub const DRAIN_TICK_SECS: u64 = 60;

/// Records one pass may push to one peer.
pub const MAX_PER_PASS: usize = 8;

// ── The tag a record's bytes are pinned under ───────────────────────────────

pub open spec fn tag_of(id: Seq<char>) -> Seq<char> {
    "outbox/"@ + id
}

/// The tag that pins one record's bytes. The one deriver: staging names the
/// pin with it before the record exists, and the record stores what it
/// returns.
pub fn tag_name(id: &str) -> (r: String)
    ensures
        r@ == tag_of(id@),
{
    let mut s = own("outbox/");
    append(&mut s, id);
    s
}

// ── The record ─────────────────────────────────────────────────────────────

/// One accepted-but-undelivered send.
#[derive(Debug, PartialEq, Eq)]
pub struct Record {
    /// Also the file stem and the tag suffix.
    pub id: String,
    /// Hex node id of the receiving peer.
    pub peer: String,
    /// The device name as it stood at enqueue. Display only.
    pub device: String,
    /// The source file's canonical path, which the drain checks against the
    /// roots again; its bytes are never read from it again.
    pub source: String,
    /// What the receiver is told the file is called.
    pub name: String,
    pub size: u64,
    /// BLAKE3 hex of the staged bytes.
    pub hash: String,
    /// `outbox/<id>`, the pin that keeps those bytes on disk.
    pub tag: String,
    pub enqueued_at: u64,
    pub expires_at: u64,
    pub attempts: u32,
    pub last_attempt_at: u64,
    pub last_error: Option<String>,
}

pub fn copy_opt(s: &Option<String>) -> (r: Option<String>)
    ensures
        r == *s,
{
    match s {
        Some(x) => Some(x.clone()),
        None => None,
    }
}

impl Clone for Record {
    fn clone(&self) -> (r: Self)
        ensures
            r == *self,
    {
        Record {
            id: self.id.clone(),
            peer: self.peer.clone(),
            device: self.device.clone(),
            source: self.source.clone(),
            name: self.name.clone(),
            size: self.size,
            hash: self.hash.clone(),
            tag: self.tag.clone(),
            enqueued_at: self.enqueued_at,
            expires_at: self.expires_at,
            attempts: self.attempts,
            last_attempt_at: self.last_attempt_at,
            last_error: copy_opt(&self.last_error),
        }
    }
}

/// What the caller knows about a send it has already staged. The spool owns
/// every field the caller must not choose: the tag, both timestamps and the
/// attempt counters.
#[derive(Debug, PartialEq, Eq)]
pub struct Staged {
    pub id: String,
    pub peer: String,
    pub device: String,
    pub source: String,
    pub name: String,
    pub size: u64,
    pub hash: String,
}

impl Clone for Staged {
    fn clone(&self) -> (r: Self)
        ensures
            r == *self,
    {
        Staged {
            id: self.id.clone(),
            peer: self.peer.clone(),
            device: self.device.clone(),
            source: self.source.clone(),
            name: self.name.clone(),
            size: self.size,
            hash: self.hash.clone(),
        }
    }
}

// ── Names in the outbox directory ───────────────────────────────────────────

/// The position of the last `.` in `s`, when there is one.
pub open spec fn last_dot(s: Seq<char>) -> int
    decreases s.len(),
{
    if s.len() == 0 {
        -1
    } else if s.last() == '.' {
        s.len() - 1
    } else {
        last_dot(s.drop_last())
    }
}

/// The position of the last `-` in `s`, when there is one.
pub open spec fn last_dash(s: Seq<char>) -> int
    decreases s.len(),
{
    if s.len() == 0 {
        -1
    } else if s.last() == '-' {
        s.len() - 1
    } else {
        last_dash(s.drop_last())
    }
}

/// The record stem a file name carries: `<stem>.json`, where the extension
/// is what follows the LAST dot, and a leading dot alone is no extension.
/// A crash's `<id>.json.tmp` is therefore not a record.
pub open spec fn record_stem_spec(name: Seq<char>) -> Option<Seq<char>> {
    let d = last_dot(name);
    if name != "."@ && name != ".."@ && d > 0 && name.subrange(d + 1, name.len() as int)
        == "json"@ {
        Some(name.subrange(0, d))
    } else {
        None
    }
}

/// `<id>.json.broken.<digits>`, the only name quarantine writes.
pub open spec fn broken_stem_spec(name: Seq<char>) -> Option<Seq<char>> {
    let m = ".broken."@;
    let k = last_occurrence(name, m);
    if k < 0 {
        None
    } else {
        let head = name.subrange(0, k);
        let stamp = name.subrange(k + m.len(), name.len() as int);
        if stamp.len() == 0 || !all_digits(stamp) || head.len() < 5 || head.subrange(
            head.len() - 5,
            head.len() as int,
        ) != ".json"@ {
            None
        } else {
            Some(head.subrange(0, head.len() - 5))
        }
    }
}

/// The start of the last occurrence of `m` in `s`, or -1.
pub open spec fn last_occurrence(s: Seq<char>, m: Seq<char>) -> int
    decreases s.len(),
{
    if s.len() < m.len() || s.len() == 0 {
        -1
    } else if s.subrange(s.len() - m.len(), s.len() as int) == m {
        s.len() - m.len()
    } else {
        last_occurrence(s.drop_last(), m)
    }
}

pub open spec fn is_digit(c: char) -> bool {
    '0' <= c && c <= '9'
}

pub open spec fn all_digits(s: Seq<char>) -> bool {
    forall|i: int| 0 <= i < s.len() ==> is_digit(#[trigger] s[i])
}

/// The number a run of decimal digits denotes.
pub open spec fn digits_value(s: Seq<char>) -> nat
    decreases s.len(),
{
    if s.len() == 0 {
        0
    } else {
        digits_value(s.drop_last()) * 10 + ((s.last() as u32) - 48) as nat
    }
}

/// `u64::from_str`: an optional `+`, then at least one digit, and a value
/// that fits.
pub open spec fn parse_u64(s: Seq<char>) -> Option<u64> {
    let t = if s.len() > 0 && s[0] == '+' {
        s.drop_first()
    } else {
        s
    };
    if t.len() > 0 && all_digits(t) && digits_value(t) <= u64::MAX {
        Some(digits_value(t) as u64)
    } else {
        None
    }
}

/// The counter half of `{millis}-{seq}`, or `None` for a name this module
/// did not mint.
pub open spec fn seq_of_spec(stem: Seq<char>) -> Option<u64> {
    let d = last_dash(stem);
    if d < 0 {
        None
    } else {
        parse_u64(stem.subrange(d + 1, stem.len() as int))
    }
}

/// A record id: the millisecond it was accepted at, then the counter.
pub open spec fn id_spec(millis: u64, seq: u64) -> Seq<char> {
    dec_padded(millis as nat, 13) + "-"@ + dec_padded(seq as nat, 4)
}

fn last_index_of(v: &Vec<char>, c: char) -> (r: Option<usize>)
    ensures
        c == '.' ==> (match r {
            Some(k) => k == last_dot(v@),
            None => last_dot(v@) == -1,
        }),
        c == '-' ==> (match r {
            Some(k) => k == last_dash(v@),
            None => last_dash(v@) == -1,
        }),
        r matches Some(k) ==> k < v.len() && v@[k as int] == c,
        forall|k: int| (match r {
            Some(j) => j < k,
            None => 0 <= k,
        }) && k < v.len() ==> v@[k] != c,
{
    let mut i = v.len();
    assert(v@.subrange(0, i as int) =~= v@);
    while i > 0
        invariant
            i <= v.len(),
            c == '.' ==> last_dot(v@) == last_dot(v@.subrange(0, i as int)),
            c == '-' ==> last_dash(v@) == last_dash(v@.subrange(0, i as int)),
            forall|k: int| i <= k < v.len() ==> v@[k] != c,
        decreases i,
    {
        if v[i - 1] == c {
            return Some(i - 1);
        }
        proof {
            assert(v@.subrange(0, i as int).drop_last() =~= v@.subrange(0, i - 1));
        }
        i -= 1;
    }
    None
}

/// The record stem of a file name, when it names a record.
pub fn record_stem(name: &str) -> (r: Option<String>)
    ensures
        r matches Some(s) ==> record_stem_spec(name@) == Some(s@),
        r is None ==> record_stem_spec(name@) is None,
{
    let v = chars_of(name);
    let found = last_index_of(&v, '.');
    proof {
        reveal_strlit("json");
        reveal_strlit(".");
        reveal_strlit("..");
    }
    let d = match found {
        Some(d) => d,
        None => {
            return None;
        },
    };
    if d == 0 {
        return None;
    }
    if v.len() - (d + 1) != 4 || v[d + 1] != 'j' || v[d + 2] != 's' || v[d + 3] != 'o' || v[d + 4]
        != 'n' {
        proof {
            assert("json"@.len() == 4);
            assert(v@.subrange(d + 1, v.len() as int).len() == v.len() - (d + 1));
            if v@.subrange(d + 1, v.len() as int) == "json"@ {
                assert(v@.subrange(d + 1, v.len() as int)[0] == 'j');
                assert(v@.subrange(d + 1, v.len() as int)[1] == 's');
                assert(v@.subrange(d + 1, v.len() as int)[2] == 'o');
                assert(v@.subrange(d + 1, v.len() as int)[3] == 'n');
            }
        }
        return None;
    }
    assert(v@.subrange(d + 1, v.len() as int) =~= "json"@);
    proof {
        if name@ == "."@ || name@ == ".."@ {
            assert(name@[name@.len() - 1] == '.');
        }
    }
    let mut s = String::new();
    crate::text::push_range(&mut s, &v, 0, d);
    assert(Seq::<char>::empty() + v@.subrange(0, d as int) =~= v@.subrange(0, d as int));
    Some(s)
}


/// Does `v[at..at + m.len()]` equal `m`?
fn matches_at(v: &Vec<char>, m: &Vec<char>, at: usize) -> (b: bool)
    requires
        at + m.len() <= v.len(),
    ensures
        b == (v@.subrange(at as int, at + m.len()) == m@),
{
    let mut j: usize = 0;
    while j < m.len()
        invariant
            j <= m.len(),
            at + m.len() <= v.len(),
            forall|k: int| 0 <= k < j ==> v@[at + k] == m@[k],
        decreases m.len() - j,
    {
        if v[at + j] != m[j] {
            assert(v@.subrange(at as int, at + m.len())[j as int] != m@[j as int]);
            return false;
        }
        j += 1;
    }
    assert(v@.subrange(at as int, at + m.len()) =~= m@);
    true
}

/// Where the last occurrence of `m` in `v` starts.
fn last_occurrence_of(v: &Vec<char>, m: &Vec<char>) -> (r: Option<usize>)
    requires
        m.len() > 0,
    ensures
        match r {
            Some(k) => k == last_occurrence(v@, m@) && k + m.len() <= v.len(),
            None => last_occurrence(v@, m@) == -1,
        },
{
    let mut i = v.len();
    assert(v@.subrange(0, i as int) =~= v@);
    while i >= m.len()
        invariant
            i <= v.len(),
            m.len() > 0,
            last_occurrence(v@, m@) == last_occurrence(v@.subrange(0, i as int), m@),
        decreases i,
    {
        let at = i - m.len();
        if matches_at(v, m, at) {
            assert(v@.subrange(0, i as int).subrange(at as int, i as int) =~= v@.subrange(at as int, i as int));
            return Some(at);
        }
        assert(v@.subrange(0, i as int).subrange(at as int, i as int) =~= v@.subrange(at as int, i as int));
        assert(v@.subrange(0, i as int).drop_last() =~= v@.subrange(0, i - 1));
        i -= 1;
    }
    None
}

fn all_digit_chars(v: &Vec<char>, lo: usize, hi: usize) -> (b: bool)
    requires
        lo <= hi <= v.len(),
    ensures
        b == all_digits(v@.subrange(lo as int, hi as int)),
{
    let mut i = lo;
    while i < hi
        invariant
            lo <= i <= hi <= v.len(),
            forall|k: int| lo <= k < i ==> is_digit(#[trigger] v@[k]),
        decreases hi - i,
    {
        if !('0' <= v[i] && v[i] <= '9') {
            assert(v@.subrange(lo as int, hi as int)[i - lo] == v@[i as int]);
            return false;
        }
        i += 1;
    }
    assert forall|k: int| 0 <= k < v@.subrange(lo as int, hi as int).len() implies is_digit(
        #[trigger] v@.subrange(lo as int, hi as int)[k],
    ) by {
        assert(v@.subrange(lo as int, hi as int)[k] == v@[lo + k]);
    }
    true
}

/// The record stem behind a quarantined file, or `None` for anything else
/// the directory holds.
pub fn broken_stem(name: &str) -> (r: Option<String>)
    ensures
        r matches Some(s) ==> broken_stem_spec(name@) == Some(s@),
        r is None ==> broken_stem_spec(name@) is None,
{
    let v = chars_of(name);
    let m = chars_of(".broken.");
    let json = chars_of(".json");
    proof {
        reveal_strlit(".broken.");
        reveal_strlit(".json");
    }
    let k = match last_occurrence_of(&v, &m) {
        Some(k) => k,
        None => {
            return None;
        },
    };
    let ghost head = v@.subrange(0, k as int);
    let ghost stamp = v@.subrange(k + m.len(), v.len() as int);
    if k + m.len() == v.len() || !all_digit_chars(&v, k + m.len(), v.len()) || k < 5 {
        return None;
    }
    let hit = matches_at(&v, &json, k - 5);
    assert(head.subrange(head.len() - 5, head.len() as int) =~= v@.subrange(k - 5, k as int));
    if !hit {
        return None;
    }
    let mut s = String::new();
    crate::text::push_range(&mut s, &v, 0, k - 5);
    assert(Seq::<char>::empty() + v@.subrange(0, k - 5) =~= head.subrange(0, head.len() - 5));
    Some(s)
}

proof fn lemma_digits_value_step(s: Seq<char>, c: char)
    ensures
        digits_value(s.push(c)) == digits_value(s) * 10 + ((c as u32) - 48) as nat,
{
    assert(s.push(c).drop_last() =~= s);
}

proof fn lemma_digits_value_monotone(s: Seq<char>, i: int)
    requires
        0 <= i <= s.len(),
        all_digits(s),
    ensures
        digits_value(s.take(i)) <= digits_value(s),
    decreases s.len() - i,
{
    if i == s.len() {
        assert(s.take(i) =~= s);
    } else {
        lemma_digits_value_monotone(s, i + 1);
        assert(s.take(i + 1).drop_last() =~= s.take(i));
        assert(is_digit(s[i]));
        assert(s.take(i + 1).last() == s[i]);
    }
}

/// `u64::from_str` over a run of characters.
fn parse_u64_chars(v: &Vec<char>, lo: usize, hi: usize) -> (r: Option<u64>)
    requires
        lo <= hi <= v.len(),
    ensures
        r == parse_u64(v@.subrange(lo as int, hi as int)),
{
    let ghost s = v@.subrange(lo as int, hi as int);
    let mut start = lo;
    if lo < hi && v[lo] == '+' {
        start = lo + 1;
        assert(s.drop_first() =~= v@.subrange(lo + 1, hi as int));
    }
    let ghost t = v@.subrange(start as int, hi as int);
    assert(t == if s.len() > 0 && s[0] == '+' { s.drop_first() } else { s });
    if start == hi {
        return None;
    }
    if !all_digit_chars(v, start, hi) {
        return None;
    }
    let mut acc: u64 = 0;
    let mut i = start;
    assert(t.take(0) =~= Seq::<char>::empty());
    while i < hi
        invariant
            start <= i <= hi <= v.len(),
            t == v@.subrange(start as int, hi as int),
            all_digits(t),
            acc == digits_value(t.take(i - start)),
            s == v@.subrange(lo as int, hi as int),
            t == (if s.len() > 0 && s[0] == '+' { s.drop_first() } else { s }),
            t.len() > 0,
        decreases hi - i,
    {
        let c = v[i];
        assert(t[i - start] == c);
        assert(is_digit(c));
        let d: u64 = (c as u32 - 48) as u64;
        proof {
            assert(is_digit(t[i - start]));
            assert(t.take(i - start + 1) =~= t.take(i - start).push(t[i - start]));
            lemma_digits_value_step(t.take(i - start), t[i - start]);
        }
        match acc.checked_mul(10) {
            Some(x) => match x.checked_add(d) {
                Some(y) => {
                    acc = y;
                },
                None => {
                    proof {
                        lemma_digits_value_monotone(t, i - start + 1);
                        assert(digits_value(t.take(i - start + 1)) == acc * 10 + d);
                    }
                    return None;
                },
            },
            None => {
                proof {
                    lemma_digits_value_monotone(t, i - start + 1);
                    assert(digits_value(t.take(i - start + 1)) >= acc * 10);
                }
                return None;
            },
        }
        i += 1;
    }
    assert(t.take(hi - start) =~= t);
    Some(acc)
}

/// The counter half of `{millis}-{seq}`, or `None` for a name this module
/// did not mint. Only the tail is read: the millisecond half is the part a
/// wrong clock corrupts.
pub fn seq_of(stem: &str) -> (r: Option<u64>)
    ensures
        r == seq_of_spec(stem@),
{
    let v = chars_of(stem);
    match last_index_of(&v, '-') {
        None => None,
        Some(d) => parse_u64_chars(&v, d + 1, v.len()),
    }
}


// ── Names, decided once ─────────────────────────────────────────────────────

proof fn lemma_last_dot_bounds(s: Seq<char>)
    ensures
        -1 <= last_dot(s) < s.len(),
        last_dot(s) >= 0 ==> s[last_dot(s)] == '.',
        forall|k: int| last_dot(s) < k < s.len() ==> s[k] != '.',
    decreases s.len(),
{
    if s.len() > 0 && s.last() != '.' {
        lemma_last_dot_bounds(s.drop_last());
        assert forall|k: int| last_dot(s) < k < s.len() implies s[k] != '.' by {
            if k < s.len() - 1 {
                assert(s[k] == s.drop_last()[k]);
            }
        }
    }
}

/// A record stem names exactly one file: `<stem>.json`.
proof fn lemma_record_stem_names(n: Seq<char>)
    requires
        record_stem_spec(n) is Some,
    ensures
        n == record_stem_spec(n).unwrap() + ".json"@,
{
    reveal_strlit(".json");
    reveal_strlit("json");
    lemma_last_dot_bounds(n);
    let d = last_dot(n);
    let t = n.subrange(d + 1, n.len() as int);
    assert(t == "json"@);
    assert(n =~= n.subrange(0, d) + ".json"@) by {
        assert forall|k: int| 0 <= k < n.len() implies n[k] == (n.subrange(0, d) + ".json"@)[k] by {
            if k > d {
                assert(n[k] == t[k - d - 1]);
            }
        }
    }
}

/// The name of the file a record with this stem lives in, for every name
/// that carries a stem.
pub proof fn lemma_one_name_per_stem(a: Seq<char>, b: Seq<char>)
    requires
        record_stem_spec(a) is Some,
        record_stem_spec(a) == record_stem_spec(b),
    ensures
        a == b,
{
    lemma_record_stem_names(a);
    lemma_record_stem_names(b);
}


// ── The spool ──────────────────────────────────────────────────────────────

/// The ids of a run of records.
pub open spec fn ids(s: Seq<Record>) -> Seq<Seq<char>> {
    s.map_values(|r: Record| r.id@)
}

/// A run of records kept the way the spool keeps them: in id order, each id
/// once.
pub open spec fn by_id(s: Seq<Record>) -> bool {
    strictly_sorted(ids(s))
}

/// Put `r` into a run kept by id, in place of the record that carries the
/// same id if there is one.
fn upsert_record(v: &mut Vec<Record>, r: Record)
    requires
        by_id(old(v)@),
    ensures
        by_id(final(v)@),
        final(v)@.contains(r),
        final(v)@.len() <= old(v)@.len() + 1,
        forall|x: Record|
            #![trigger final(v)@.contains(x)]
            final(v)@.contains(x) ==> x == r || (old(v)@.contains(x) && x.id@ != r.id@),
        forall|x: Record|
            #![trigger old(v)@.contains(x)]
            old(v)@.contains(x) && x.id@ != r.id@ ==> final(v)@.contains(x),
{
    let ghost s0 = ids(v@);
    let ghost v0 = v@;
    let mut i: usize = 0;
    let mut stop = false;
    let mut same = false;
    while i < v.len() && !stop
        invariant
            i <= v.len(),
            v@ == v0,
            s0 == ids(v0),
            strictly_sorted(s0),
            forall|k: int| 0 <= k < i ==> seq_lt(#[trigger] s0[k], r.id@),
            stop ==> i < v.len(),
            stop && same ==> s0[i as int] == r.id@,
            stop && !same ==> seq_lt(r.id@, s0[i as int]),
            !stop ==> !same,
        decreases v.len() - i + (if stop { 0int } else { 1int }),
    {
        match compare_str(v[i].id.as_str(), r.id.as_str()) {
            Rank::Less => {
                i += 1;
            },
            Rank::Equal => {
                stop = true;
                same = true;
            },
            Rank::Greater => {
                stop = true;
            },
        }
    }
    if same {
        let _old = v.remove(i);
        v.insert(i, r);
        proof {
            assert(v@ =~= v0.update(i as int, r));
            assert(ids(v@) =~= s0);
            assert(v@[i as int] == r);
            assert forall|x: Record| v@.contains(x) implies x == r || (v0.contains(x) && x.id@
                != r.id@) by {
                let k = choose|k: int| 0 <= k < v@.len() && v@[k] == x;
                if k != i {
                    assert(v0[k] == x);
                    assert(s0[k] != s0[i as int]) by {
                        if k < i {
                            lemma_lt_irreflexive(s0[k]);
                        } else {
                            lemma_lt_irreflexive(s0[i as int]);
                        }
                    }
                }
            }
            assert forall|x: Record| v0.contains(x) && x.id@ != r.id@ implies v@.contains(x) by {
                let k = choose|k: int| 0 <= k < v0.len() && v0[k] == x;
                assert(k != i);
                assert(v@[k] == x);
            }
        }
        return;
    }
    proof {
        assert forall|k: int| i <= k < s0.len() implies seq_lt(r.id@, #[trigger] s0[k]) by {
            if k > i {
                lemma_lt_transitive(r.id@, s0[i as int], s0[k]);
            }
        }
    }
    v.insert(i, r);
    proof {
        let s1 = ids(v@);
        assert(v@ =~= v0.insert(i as int, r));
        assert(s1 =~= s0.insert(i as int, r.id@));
        assert forall|a: int, b: int| 0 <= a < b < s1.len() implies seq_lt(
            #[trigger] s1[a],
            #[trigger] s1[b],
        ) by {
            if b < i {
            } else if a < i && b == i {
            } else if a < i && b > i {
                assert(s1[b] == s0[b - 1]);
            } else if a == i {
                assert(s1[b] == s0[b - 1]);
            } else {
                assert(s1[a] == s0[a - 1]);
                assert(s1[b] == s0[b - 1]);
            }
        }
        assert(v@[i as int] == r);
        assert forall|x: Record| v@.contains(x) implies x == r || (v0.contains(x) && x.id@
            != r.id@) by {
            let k = choose|k: int| 0 <= k < v@.len() && v@[k] == x;
            if k < i {
                assert(v0[k] == x);
                assert(seq_lt(s0[k], r.id@));
                lemma_lt_irreflexive(s0[k]);
            } else if k > i {
                assert(v0[k - 1] == x);
                assert(seq_lt(r.id@, s0[k - 1]));
                lemma_lt_irreflexive(r.id@);
            }
        }
        assert forall|x: Record| v0.contains(x) && x.id@ != r.id@ implies v@.contains(x) by {
            let k = choose|k: int| 0 <= k < v0.len() && v0[k] == x;
            if k < i {
                assert(v@[k] == x);
            } else {
                assert(v@[k + 1] == x);
            }
        }
    }
}

/// What one record file held, as the shell that opened it found it.
pub enum FileRead {
    /// The bytes could not be read at all: EACCES after a permissions
    /// repair, a changed owner after a restore, EIO, a directory in the
    /// file's place. Not corruption.
    Io(String),
    /// The bytes read, and they carry no version this build can read.
    Garbled(String),
    /// The version the document carries, and what parsing the whole document
    /// as this build's record gave.
    Versioned { v: u32, record: Result<Record, String> },
}

/// One name the outbox directory listed. `read` holds the file's contents
/// for a name a record lives under (see `wants_read`), and nothing for
/// every other name.
pub struct Entry {
    pub name: String,
    pub read: Option<FileRead>,
}

/// What reading the outbox directory gave.
pub enum Listing {
    /// There is no directory: nothing was ever queued.
    Missing,
    /// The directory itself would not read, with the reason.
    Failed(String),
    /// The directory's entries.
    Entries(Vec<Entry>),
}

/// What becomes of one record file.
pub enum Verdict {
    /// A record this build can deliver.
    Live(Record),
    /// Written by a schema version this build does not write: left alone.
    Foreign,
    /// Would not read this time: left alone for a later boot.
    IoFault,
    /// Read, and not a record this build can use: moved aside.
    Broken,
}

/// The stem a listed name is read as a record under: a `.json` name that is
/// not a moved-aside one.
pub open spec fn read_stem(name: Seq<char>) -> Option<Seq<char>> {
    if broken_stem_spec(name) is Some {
        None
    } else {
        record_stem_spec(name)
    }
}

/// The verdict on one record file. The version is judged FIRST: a newer
/// build's record carries fields this one does not know, and parsing it as a
/// record first would call it corrupt and move it aside. The id must match
/// the file stem, because completing a record deletes the file its id names.
pub open spec fn verdict(stem: Seq<char>, read: FileRead) -> Verdict {
    match read {
        FileRead::Io(_) => Verdict::IoFault,
        FileRead::Garbled(_) => Verdict::Broken,
        FileRead::Versioned { v, record } => if v != OUTBOX_SCHEMA {
            Verdict::Foreign
        } else {
            match record {
                Ok(r) => if r.id@ == stem {
                    Verdict::Live(r)
                } else {
                    Verdict::Broken
                },
                Err(_) => Verdict::Broken,
            }
        },
    }
}

/// The verdict on a listed entry, when it is a record file that was read.
pub open spec fn entry_verdict(e: Entry) -> Option<Verdict> {
    match read_stem(e.name@) {
        Some(stem) => match e.read {
            Some(fr) => Some(verdict(stem, fr)),
            None => None,
        },
        None => None,
    }
}

/// `stem` belongs on the quarantine list because of entry `e`: either the
/// file is already moved aside, or this read moves it.
pub open spec fn quarantines(e: Entry, stem: Seq<char>) -> bool {
    broken_stem_spec(e.name@) == Some(stem) || (read_stem(e.name@) == Some(stem)
        && entry_verdict(e) == Some(Verdict::Broken))
}

pub open spec fn is_foreign(e: Entry, stem: Seq<char>) -> bool {
    read_stem(e.name@) == Some(stem) && entry_verdict(e) == Some(Verdict::Foreign)
}

pub open spec fn is_io_fault(e: Entry, stem: Seq<char>) -> bool {
    read_stem(e.name@) == Some(stem) && entry_verdict(e) == Some(Verdict::IoFault)
}

/// Directory names are distinct.
pub open spec fn distinct_names(es: Seq<Entry>) -> bool {
    forall|i: int, j: int| 0 <= i < j < es.len() ==> (#[trigger] es[i]).name@ != (#[trigger] es[j]).name@
}

/// Should the shell read this file? Exactly the names a record lives under.
pub fn wants_read(name: &str) -> (b: bool)
    ensures
        b == (read_stem(name@) is Some),
{
    match broken_stem(name) {
        Some(_) => false,
        None => match record_stem(name) {
            Some(_) => true,
            None => false,
        },
    }
}

fn judge(stem: &str, read: &FileRead) -> (r: Verdict)
    ensures
        r == verdict(stem@, *read),
{
    match read {
        FileRead::Io(_) => Verdict::IoFault,
        FileRead::Garbled(_) => Verdict::Broken,
        FileRead::Versioned { v, record } => {
            if *v != OUTBOX_SCHEMA {
                Verdict::Foreign
            } else {
                match record {
                    Ok(r) => {
                        if same_text(r.id.as_str(), stem) {
                            Verdict::Live(r.clone())
                        } else {
                            Verdict::Broken
                        }
                    },
                    Err(_) => Verdict::Broken,
                }
            }
        },
    }
}


// ── One directory read ──────────────────────────────────────────────────────

/// The records a listing yields.
pub open spec fn live_in(es: Seq<Entry>) -> Set<Record> {
    Set::new(|x: Record| exists|i: int| 0 <= i < es.len() && #[trigger] entry_verdict(es[i]) == Some(Verdict::Live(x)))
}

/// The stems a listing puts on the quarantine list.
pub open spec fn quarantined_in(es: Seq<Entry>) -> Set<Seq<char>> {
    Set::new(|s: Seq<char>| exists|i: int| 0 <= i < es.len() && quarantines(#[trigger] es[i], s))
}

/// The stems a listing finds written by a schema this build does not write.
pub open spec fn foreign_in(es: Seq<Entry>) -> Set<Seq<char>> {
    Set::new(|s: Seq<char>| exists|i: int| 0 <= i < es.len() && is_foreign(#[trigger] es[i], s))
}

/// The stems whose files would not read.
pub open spec fn io_faults_in(es: Seq<Entry>) -> Set<Seq<char>> {
    Set::new(|s: Seq<char>| exists|i: int| 0 <= i < es.len() && is_io_fault(#[trigger] es[i], s))
}

proof fn lemma_take_step(es: Seq<Entry>, k: int)
    requires
        0 <= k < es.len(),
    ensures
        forall|x: Record| #[trigger] live_in(es.take(k + 1)).contains(x) <==> (live_in(es.take(k)).contains(x)
            || entry_verdict(es[k]) == Some(Verdict::Live(x))),
        forall|s: Seq<char>| #[trigger] quarantined_in(es.take(k + 1)).contains(s) <==> (quarantined_in(
            es.take(k),
        ).contains(s) || quarantines(es[k], s)),
        forall|s: Seq<char>| #[trigger] foreign_in(es.take(k + 1)).contains(s) <==> (foreign_in(es.take(k)).contains(s)
            || is_foreign(es[k], s)),
        forall|s: Seq<char>| #[trigger] io_faults_in(es.take(k + 1)).contains(s) <==> (io_faults_in(es.take(k)).contains(s)
            || is_io_fault(es[k], s)),
{
    let a = es.take(k);
    let b = es.take(k + 1);
    assert(b[k] == es[k]);
    assert forall|i: int| 0 <= i < k implies b[i] == #[trigger] a[i] by {}
    assert forall|x: Record| #[trigger] live_in(b).contains(x) <==> (live_in(a).contains(x)
        || entry_verdict(es[k]) == Some(Verdict::Live(x))) by {
        if live_in(b).contains(x) {
            let i = choose|i: int| 0 <= i < b.len() && #[trigger] entry_verdict(b[i]) == Some(Verdict::Live(x));
            if i < k {
                assert(entry_verdict(a[i]) == Some(Verdict::Live(x)));
            }
        }
        if live_in(a).contains(x) {
            let i = choose|i: int| 0 <= i < a.len() && #[trigger] entry_verdict(a[i]) == Some(Verdict::Live(x));
            assert(entry_verdict(b[i]) == Some(Verdict::Live(x)));
        }
        if entry_verdict(es[k]) == Some(Verdict::Live(x)) {
            assert(entry_verdict(b[k]) == Some(Verdict::Live(x)));
        }
    }
    assert forall|s: Seq<char>| #[trigger] quarantined_in(b).contains(s) <==> (quarantined_in(a).contains(s)
        || quarantines(es[k], s)) by {
        if quarantined_in(b).contains(s) {
            let i = choose|i: int| 0 <= i < b.len() && quarantines(#[trigger] b[i], s);
            if i < k {
                assert(quarantines(a[i], s));
            }
        }
        if quarantined_in(a).contains(s) {
            let i = choose|i: int| 0 <= i < a.len() && quarantines(#[trigger] a[i], s);
            assert(quarantines(b[i], s));
        }
        if quarantines(es[k], s) {
            assert(quarantines(b[k], s));
        }
    }
    assert forall|s: Seq<char>| #[trigger] foreign_in(b).contains(s) <==> (foreign_in(a).contains(s)
        || is_foreign(es[k], s)) by {
        if foreign_in(b).contains(s) {
            let i = choose|i: int| 0 <= i < b.len() && is_foreign(#[trigger] b[i], s);
            if i < k {
                assert(is_foreign(a[i], s));
            }
        }
        if foreign_in(a).contains(s) {
            let i = choose|i: int| 0 <= i < a.len() && is_foreign(#[trigger] a[i], s);
            assert(is_foreign(b[i], s));
        }
        if is_foreign(es[k], s) {
            assert(is_foreign(b[k], s));
        }
    }
    assert forall|s: Seq<char>| #[trigger] io_faults_in(b).contains(s) <==> (io_faults_in(a).contains(s)
        || is_io_fault(es[k], s)) by {
        if io_faults_in(b).contains(s) {
            let i = choose|i: int| 0 <= i < b.len() && is_io_fault(#[trigger] b[i], s);
            if i < k {
                assert(is_io_fault(a[i], s));
            }
        }
        if io_faults_in(a).contains(s) {
            let i = choose|i: int| 0 <= i < a.len() && is_io_fault(#[trigger] a[i], s);
            assert(is_io_fault(b[i], s));
        }
        if is_io_fault(es[k], s) {
            assert(is_io_fault(b[k], s));
        }
    }
}

/// Everything one directory read produced, replaced as a unit by a reload.
struct Spool {
    records: Vec<Record>,
    load_error: Option<String>,
    quarantined: Vec<String>,
    foreign: Vec<String>,
    io_faults: Vec<String>,
}

impl Spool {
    /// Each list kept in the order it is reported in, each entry once.
    spec fn wf(&self) -> bool {
        &&& by_id(self.records@)
        &&& strictly_sorted(views(self.quarantined@))
        &&& strictly_sorted(views(self.foreign@))
        &&& strictly_sorted(views(self.io_faults@))
    }

    fn empty() -> (sp: Spool)
        ensures
            sp.wf(),
            sp.records@.len() == 0,
            sp.quarantined@.len() == 0,
            sp.foreign@.len() == 0,
            sp.io_faults@.len() == 0,
            sp.load_error is None,
    {
        Spool {
            records: Vec::new(),
            load_error: None,
            quarantined: Vec::new(),
            foreign: Vec::new(),
            io_faults: Vec::new(),
        }
    }
}

/// Classify every listed entry.
fn read_entries(es: &Vec<Entry>) -> (sp: Spool)
    requires
        distinct_names(es@),
    ensures
        sp.wf(),
        sp.load_error is None,
        forall|x: Record| sp.records@.contains(x) <==> live_in(es@).contains(x),
        views(sp.quarantined@).to_set() == quarantined_in(es@),
        views(sp.foreign@).to_set() == foreign_in(es@),
        views(sp.io_faults@).to_set() == io_faults_in(es@),
{
    let mut sp = Spool::empty();
    let mut k: usize = 0;
    proof {
        assert(views(sp.quarantined@).to_set() =~= quarantined_in(es@.take(0)));
        assert(views(sp.foreign@).to_set() =~= foreign_in(es@.take(0)));
        assert(views(sp.io_faults@).to_set() =~= io_faults_in(es@.take(0)));
    }
    while k < es.len()
        invariant
            k <= es.len(),
            distinct_names(es@),
            sp.wf(),
            sp.load_error is None,
            forall|x: Record| #![trigger sp.records@.contains(x)] sp.records@.contains(x) <==> live_in(es@.take(k as int)).contains(x),
            views(sp.quarantined@).to_set() == quarantined_in(es@.take(k as int)),
            views(sp.foreign@).to_set() == foreign_in(es@.take(k as int)),
            views(sp.io_faults@).to_set() == io_faults_in(es@.take(k as int)),
        decreases es.len() - k,
    {
        let e = &es[k];
        let ghost ek = es@[k as int];
        proof {
            lemma_take_step(es@, k as int);
        }
        let ghost sp0 = sp;
        match broken_stem(e.name.as_str()) {
            Some(stem) => {
                insert_sorted_unique(&mut sp.quarantined, stem);
                proof {
                    assert(views(sp.quarantined@).to_set() =~= quarantined_in(es@.take(k + 1)));
                    assert(views(sp.foreign@).to_set() =~= foreign_in(es@.take(k + 1)));
                    assert(views(sp.io_faults@).to_set() =~= io_faults_in(es@.take(k + 1)));
                }
            },
            None => match record_stem(e.name.as_str()) {
                None => {
                    proof {
                        assert(views(sp.quarantined@).to_set() =~= quarantined_in(es@.take(k + 1)));
                        assert(views(sp.foreign@).to_set() =~= foreign_in(es@.take(k + 1)));
                        assert(views(sp.io_faults@).to_set() =~= io_faults_in(es@.take(k + 1)));
                    }
                },
                Some(stem) => match &e.read {
                    None => {
                        proof {
                            assert(views(sp.quarantined@).to_set() =~= quarantined_in(es@.take(k + 1)));
                            assert(views(sp.foreign@).to_set() =~= foreign_in(es@.take(k + 1)));
                            assert(views(sp.io_faults@).to_set() =~= io_faults_in(es@.take(k + 1)));
                        }
                    },
                    Some(fr) => {
                        let j = judge(stem.as_str(), fr);
                        match j {
                            Verdict::Live(r) => {
                                let ghost rr = r;
                                proof {
                                    assert forall|x: Record| sp.records@.contains(x) implies x.id@ != rr.id@ by {
                                        let i = choose|i: int| 0 <= i < k && #[trigger] entry_verdict(es@.take(k as int)[i]) == Some(Verdict::Live(x));
                                        let ei = es@[i];
                                        assert(es@.take(k as int)[i] == ei);
                                        if x.id@ == rr.id@ {
                                            lemma_one_name_per_stem(ei.name@, ek.name@);
                                        }
                                    }
                                }
                                upsert_record(&mut sp.records, r);
                                proof {
                                    assert(views(sp.quarantined@).to_set() =~= quarantined_in(es@.take(k + 1)));
                                    assert(views(sp.foreign@).to_set() =~= foreign_in(es@.take(k + 1)));
                                    assert(views(sp.io_faults@).to_set() =~= io_faults_in(es@.take(k + 1)));
                                    assert forall|x: Record| #![trigger sp.records@.contains(x)] sp.records@.contains(x) <==> live_in(es@.take(k + 1)).contains(x) by {
                                        if live_in(es@.take(k as int)).contains(x) {
                                            assert(sp0.records@.contains(x));
                                        }
                                    }
                                }
                            },
                            Verdict::Foreign => {
                                insert_sorted_unique(&mut sp.foreign, stem);
                                proof {
                                    assert(views(sp.quarantined@).to_set() =~= quarantined_in(es@.take(k + 1)));
                                    assert(views(sp.foreign@).to_set() =~= foreign_in(es@.take(k + 1)));
                                    assert(views(sp.io_faults@).to_set() =~= io_faults_in(es@.take(k + 1)));
                                }
                            },
                            Verdict::IoFault => {
                                insert_sorted_unique(&mut sp.io_faults, stem);
                                proof {
                                    assert(views(sp.quarantined@).to_set() =~= quarantined_in(es@.take(k + 1)));
                                    assert(views(sp.foreign@).to_set() =~= foreign_in(es@.take(k + 1)));
                                    assert(views(sp.io_faults@).to_set() =~= io_faults_in(es@.take(k + 1)));
                                }
                            },
                            Verdict::Broken => {
                                insert_sorted_unique(&mut sp.quarantined, stem);
                                proof {
                                    assert(views(sp.quarantined@).to_set() =~= quarantined_in(es@.take(k + 1)));
                                    assert(views(sp.foreign@).to_set() =~= foreign_in(es@.take(k + 1)));
                                    assert(views(sp.io_faults@).to_set() =~= io_faults_in(es@.take(k + 1)));
                                }
                            },
                        }
                    },
                },
            },
        }
        k += 1;
    }
    assert(es@.take(es.len() as int) =~= es@);
    sp
}


// ── The id counter ─────────────────────────────────────────────────────────

/// The largest counter any of `ss` carries.
pub open spec fn max_counter(ss: Seq<Seq<char>>) -> Option<u64>
    decreases ss.len(),
{
    if ss.len() == 0 {
        None
    } else {
        let m = max_counter(ss.drop_last());
        match seq_of_spec(ss.last()) {
            None => m,
            Some(n) => match m {
                None => Some(n),
                Some(x) => Some(if n > x { n } else { x }),
            },
        }
    }
}

/// The first counter none of `ss` can already carry (short of the largest
/// value a counter can hold).
pub open spec fn next_counter(ss: Seq<Seq<char>>) -> u64 {
    match max_counter(ss) {
        None => 0,
        Some(m) => if m == u64::MAX {
            m
        } else {
            (m + 1) as u64
        },
    }
}

proof fn lemma_max_counter_bounds(ss: Seq<Seq<char>>)
    ensures
        forall|i: int|
            0 <= i < ss.len() ==> (#[trigger] seq_of_spec(ss[i]) matches Some(n) ==> max_counter(ss) matches Some(m) && n <= m),
    decreases ss.len(),
{
    if ss.len() > 0 {
        lemma_max_counter_bounds(ss.drop_last());
        assert forall|i: int| 0 <= i < ss.len() implies (#[trigger] seq_of_spec(ss[i]) matches Some(n) ==> max_counter(ss) matches Some(m) && n <= m) by {
            if i < ss.len() - 1 {
                assert(ss[i] == ss.drop_last()[i]);
            }
        }
    }
}

/// Every counter `ss` carries sits below the next one, unless it is the
/// largest a counter can hold.
pub proof fn lemma_next_counter_is_past(ss: Seq<Seq<char>>)
    ensures
        forall|i: int|
            0 <= i < ss.len() ==> (#[trigger] seq_of_spec(ss[i]) matches Some(n) ==> n < next_counter(ss) || n == u64::MAX),
{
    lemma_max_counter_bounds(ss);
}

fn max_counter_of(v: &Vec<String>) -> (r: Option<u64>)
    ensures
        r == max_counter(views(v@)),
{
    let mut m: Option<u64> = None;
    let mut i: usize = 0;
    assert(views(v@).take(0) =~= Seq::<Seq<char>>::empty());
    while i < v.len()
        invariant
            i <= v.len(),
            m == max_counter(views(v@).take(i as int)),
        decreases v.len() - i,
    {
        let c = seq_of(v[i].as_str());
        proof {
            assert(views(v@).take(i + 1).drop_last() =~= views(v@).take(i as int));
            assert(views(v@).take(i + 1).last() == v@[i as int]@);
        }
        match c {
            None => {},
            Some(n) => {
                m = match m {
                    None => Some(n),
                    Some(x) => Some(if n > x { n } else { x }),
                };
            },
        }
        i += 1;
    }
    assert(views(v@).take(v.len() as int) =~= views(v@));
    m
}

impl Spool {
    /// Every stem the directory held: live records, quarantined, foreign and
    /// unreadable-this-time files alike.
    spec fn stems(&self) -> Seq<Seq<char>> {
        ids(self.records@) + views(self.quarantined@) + views(self.foreign@) + views(self.io_faults@)
    }

    fn all_stems(&self) -> (r: Vec<String>)
        ensures
            views(r@) == self.stems(),
    {
        let mut out: Vec<String> = Vec::new();
        let mut i: usize = 0;
        while i < self.records.len()
            invariant
                i <= self.records.len(),
                views(out@) == ids(self.records@).take(i as int),
            decreases self.records.len() - i,
        {
            let c = self.records[i].id.clone();
            let ghost before = out@;
            out.push(c);
            proof {
                assert(c@ == self.records@[i as int].id@);
                assert(views(out@) =~= views(before).push(c@));
                assert(views(out@) =~= ids(self.records@).take(i + 1));
            }
            i += 1;
        }
        assert(ids(self.records@).take(self.records.len() as int) =~= ids(self.records@));
        append_strings(&mut out, &self.quarantined);
        append_strings(&mut out, &self.foreign);
        append_strings(&mut out, &self.io_faults);
        out
    }
}

fn append_strings(out: &mut Vec<String>, v: &Vec<String>)
    ensures
        views(final(out)@) == views(old(out)@) + views(v@),
{
    let mut i: usize = 0;
    let ghost o0 = views(out@);
    while i < v.len()
        invariant
            i <= v.len(),
            views(out@) == o0 + views(v@).take(i as int),
        decreases v.len() - i,
    {
        let c = v[i].clone();
        let ghost before = out@;
        out.push(c);
        proof {
            assert(c@ == v@[i as int]@);
            assert(out@ == before.push(c));
            assert(views(out@) =~= views(before).push(c@));
            assert(views(out@) =~= o0 + views(v@).take(i + 1));
        }
        i += 1;
    }
    assert(views(v@).take(v.len() as int) =~= views(v@));
}

/// The first sequence number no stem in the directory can already carry.
/// Every stem counts, not just the live records: a quarantined, foreign or
/// unreadable file keeps its pin, and re-minting its id would point that pin
/// at bytes its record never named.
fn next_seq_after(sp: &Spool) -> (r: u64)
    ensures
        r == next_counter(sp.stems()),
{
    let all = sp.all_stems();
    match max_counter_of(&all) {
        None => 0,
        Some(m) => m.saturating_add(1),
    }
}


// ── The spool itself ────────────────────────────────────────────────────────

/// The stems of a spool's records, of its three report lists, and the
/// message a directory that would not read gets.
pub open spec fn unreadable_dir_message(dir: Seq<char>, reason: Seq<char>) -> Seq<char> {
    "cannot read \""@ + dir + "\": "@ + reason
}

fn read_listing(dir: &str, listing: &Listing) -> (sp: Spool)
    requires
        listing matches Listing::Entries(es) ==> distinct_names(es@),
    ensures
        sp.wf(),
        listing is Missing ==> sp.load_error is None && sp.records@.len() == 0
            && sp.quarantined@.len() == 0 && sp.foreign@.len() == 0 && sp.io_faults@.len() == 0,
        listing matches Listing::Failed(reason) ==> sp.load_error matches Some(m) && m@
            == unreadable_dir_message(dir@, reason@) && sp.records@.len() == 0
            && sp.quarantined@.len() == 0 && sp.foreign@.len() == 0 && sp.io_faults@.len() == 0,
        listing matches Listing::Entries(es) ==> {
            &&& sp.load_error is None
            &&& forall|x: Record| sp.records@.contains(x) <==> live_in(es@).contains(x)
            &&& views(sp.quarantined@).to_set() == quarantined_in(es@)
            &&& views(sp.foreign@).to_set() == foreign_in(es@)
            &&& views(sp.io_faults@).to_set() == io_faults_in(es@)
        },
{
    match listing {
        Listing::Missing => Spool::empty(),
        Listing::Failed(reason) => {
            let mut sp = Spool::empty();
            let mut m = own("cannot read \"");
            append(&mut m, dir);
            append(&mut m, "\": ");
            append(&mut m, reason.as_str());
            sp.load_error = Some(m);
            sp
        },
        Listing::Entries(es) => read_entries(es),
    }
}

/// The names of the record files a read moves aside, in listing order: each
/// one read, and not a record this build can use.
pub open spec fn moved_aside(es: Seq<Entry>) -> Seq<Seq<char>>
    decreases es.len(),
{
    if es.len() == 0 {
        Seq::empty()
    } else if entry_verdict(es.last()) == Some(Verdict::Broken) {
        moved_aside(es.drop_last()).push(es.last().name@)
    } else {
        moved_aside(es.drop_last())
    }
}

/// The record files a read of this listing moves aside. Moving them is the
/// shell's job; which ones is decided here, by the same verdict the read
/// itself gives.
pub fn to_move_aside(listing: &Listing) -> (r: Vec<String>)
    ensures
        listing matches Listing::Entries(es) ==> views(r@) == moved_aside(es@),
        !(listing is Entries) ==> r@.len() == 0,
{
    let mut out: Vec<String> = Vec::new();
    match listing {
        Listing::Entries(es) => {
            let mut k: usize = 0;
            assert(es@.take(0) =~= Seq::<Entry>::empty());
            while k < es.len()
                invariant
                    k <= es.len(),
                    views(out@) == moved_aside(es@.take(k as int)),
                decreases es.len() - k,
            {
                let e = &es[k];
                proof {
                    assert(es@.take(k + 1).drop_last() =~= es@.take(k as int));
                    assert(es@.take(k + 1).last() == es@[k as int]);
                }
                if wants_read(e.name.as_str()) {
                    match &e.read {
                        Some(fr) => {
                            let stem = match broken_stem(e.name.as_str()) {
                                Some(x) => x,
                                None => match record_stem(e.name.as_str()) {
                                    Some(x) => x,
                                    None => String::new(),
                                },
                            };
                            match judge(stem.as_str(), fr) {
                                Verdict::Broken => {
                                    let c = e.name.clone();
                                    let ghost before = out@;
                                    out.push(c);
                                    proof {
                                        assert(views(out@) =~= views(before).push(c@));
                                    }
                                },
                                _ => {},
                            }
                        },
                        None => {},
                    }
                }
                k += 1;
            }
            assert(es@.take(es.len() as int) =~= es@);
        },
        _ => {},
    }
    out
}

/// The spool, backed by the outbox directory.
pub struct Outbox {
    dir: String,
    spool: Spool,
    /// Breaks ties between two sends accepted inside one millisecond, and,
    /// because `load` seeds it past every counter the directory already
    /// holds, between two sends accepted by two different runs.
    seq: u64,
}

impl Outbox {
    /// The directory the spool lives in.
    pub closed spec fn dir_view(&self) -> Seq<char> {
        self.dir@
    }

    /// Every pending record, in id order.
    pub closed spec fn records(&self) -> Seq<Record> {
        self.spool.records@
    }

    /// Why the directory did not load, when it did not.
    pub closed spec fn load_error_view(&self) -> Option<String> {
        self.spool.load_error
    }

    pub closed spec fn quarantined_view(&self) -> Seq<Seq<char>> {
        views(self.spool.quarantined@)
    }

    pub closed spec fn foreign_view(&self) -> Seq<Seq<char>> {
        views(self.spool.foreign@)
    }

    pub closed spec fn io_faults_view(&self) -> Seq<Seq<char>> {
        views(self.spool.io_faults@)
    }

    /// The counter the next minted id carries.
    pub closed spec fn counter(&self) -> u64 {
        self.seq
    }

    /// Every stem this spool accounts for.
    pub open spec fn stems(&self) -> Seq<Seq<char>> {
        ids(self.records()) + self.quarantined_view() + self.foreign_view() + self.io_faults_view()
    }

    /// Records kept by id, each report list sorted and free of repeats.
    pub open spec fn wf(&self) -> bool {
        &&& by_id(self.records())
        &&& strictly_sorted(self.quarantined_view())
        &&& strictly_sorted(self.foreign_view())
        &&& strictly_sorted(self.io_faults_view())
    }

    /// Read the outbox directory, tolerating a missing one (nothing was ever
    /// queued). `listing` is what reading `dir` gave; `to_move_aside` names
    /// the record files the shell moves aside after it.
    pub fn load(dir: &str, listing: &Listing) -> (o: Outbox)
        requires
            listing matches Listing::Entries(es) ==> distinct_names(es@),
        ensures
            o.wf(),
            o.dir_view() == dir@,
            o.counter() == next_counter(o.stems()),
            listing is Missing ==> o.load_error_view() is None && o.stems().len() == 0,
            listing matches Listing::Failed(reason) ==> o.load_error_view() matches Some(m)
                && m@ == unreadable_dir_message(dir@, reason@) && o.stems().len() == 0,
            listing matches Listing::Entries(es) ==> {
                &&& o.load_error_view() is None
                &&& forall|x: Record| o.records().contains(x) <==> live_in(es@).contains(x)
                &&& o.quarantined_view().to_set() == quarantined_in(es@)
                &&& o.foreign_view().to_set() == foreign_in(es@)
                &&& o.io_faults_view().to_set() == io_faults_in(es@)
            },
    {
        let spool = read_listing(dir, listing);
        let seq = next_seq_after(&spool);
        Outbox { dir: own(dir), spool, seq }
    }

    /// Re-read the directory. A previous process may have completed or
    /// expired records since `load`, and acting on that stale list would
    /// re-push a file that already landed. The counter only ever climbs: a
    /// reload that lowered it would hand back a counter this run already
    /// minted.
    pub fn reload(&mut self, listing: &Listing)
        requires
            listing matches Listing::Entries(es) ==> distinct_names(es@),
        ensures
            final(self).wf(),
            final(self).dir_view() == old(self).dir_view(),
            final(self).counter() == (if old(self).counter() >= next_counter(final(self).stems()) {
                old(self).counter()
            } else {
                next_counter(final(self).stems())
            }),
            listing is Missing ==> final(self).load_error_view() is None && final(self).stems().len() == 0,
            listing matches Listing::Failed(reason) ==> final(self).load_error_view() matches Some(m)
                && m@ == unreadable_dir_message(old(self).dir_view(), reason@) && final(self).stems().len() == 0,
            listing matches Listing::Entries(es) ==> {
                &&& final(self).load_error_view() is None
                &&& forall|x: Record| final(self).records().contains(x) <==> live_in(es@).contains(x)
                &&& final(self).quarantined_view().to_set() == quarantined_in(es@)
                &&& final(self).foreign_view().to_set() == foreign_in(es@)
                &&& final(self).io_faults_view().to_set() == io_faults_in(es@)
            },
    {
        let next = read_listing(self.dir.as_str(), listing);
        let floor = next_seq_after(&next);
        if floor > self.seq {
            self.seq = floor;
        }
        self.spool = next;
    }

    /// The file a record with this id lives in.
    pub fn path_of(&self, id: &str) -> (r: String)
        ensures
            r@ == join(self.dir_view(), id@ + ".json"@),
    {
        let mut name = own(id);
        append(&mut name, ".json");
        join_path(self.dir.as_str(), name.as_str())
    }

    /// Why the spool did not load, if it did not. Surfaced rather than
    /// reported as an empty queue: the records are hidden, not gone.
    pub fn load_error(&self) -> (r: Option<String>)
        ensures
            r == self.load_error_view(),
    {
        copy_opt(&self.spool.load_error)
    }

    /// Stems moved aside as `<id>.json.broken.<unix>`.
    pub fn quarantined(&self) -> (r: Vec<String>)
        ensures
            views(r@) == self.quarantined_view(),
    {
        let mut r: Vec<String> = Vec::new();
        append_strings(&mut r, &self.spool.quarantined);
        assert(views(r@) =~= self.quarantined_view());
        r
    }

    /// Stems written by a newer schema, left byte for byte alone.
    pub fn foreign(&self) -> (r: Vec<String>)
        ensures
            views(r@) == self.foreign_view(),
    {
        let mut r: Vec<String> = Vec::new();
        append_strings(&mut r, &self.spool.foreign);
        assert(views(r@) =~= self.foreign_view());
        r
    }

    /// Stems whose file would not read this time.
    pub fn io_faults(&self) -> (r: Vec<String>)
        ensures
            views(r@) == self.io_faults_view(),
    {
        let mut r: Vec<String> = Vec::new();
        append_strings(&mut r, &self.spool.io_faults);
        assert(views(r@) =~= self.io_faults_view());
        r
    }

    /// Every pending record, in id order, which is enqueue order.
    pub fn list(&self) -> (r: Vec<Record>)
        ensures
            r@ == self.records(),
    {
        let mut out: Vec<Record> = Vec::new();
        let mut i: usize = 0;
        while i < self.spool.records.len()
            invariant
                i <= self.spool.records.len(),
                out@ == self.spool.records@.take(i as int),
            decreases self.spool.records.len() - i,
        {
            out.push(self.spool.records[i].clone());
            assert(out@ =~= self.spool.records@.take(i + 1));
            i += 1;
        }
        assert(self.spool.records@.take(i as int) =~= self.spool.records@);
        out
    }

    /// Whether the drain has anything to do.
    pub fn is_empty(&self) -> (b: bool)
        ensures
            b == (self.records().len() == 0),
    {
        self.spool.records.len() == 0
    }
}


// ── Asking the spool ───────────────────────────────────────────────────────

/// The records for one peer, in the order they stand.
pub open spec fn peer_records(s: Seq<Record>, peer: Seq<char>) -> Seq<Record>
    decreases s.len(),
{
    if s.len() == 0 {
        s
    } else if s.last().peer@ == peer {
        peer_records(s.drop_last(), peer).push(s.last())
    } else {
        peer_records(s.drop_last(), peer)
    }
}

/// The first record for this exact (peer, content) pair.
pub open spec fn first_pending(s: Seq<Record>, peer: Seq<char>, hash: Seq<char>) -> Option<Record>
    decreases s.len(),
{
    if s.len() == 0 {
        None
    } else if s[0].peer@ == peer && s[0].hash@ == hash {
        Some(s[0])
    } else {
        first_pending(s.drop_first(), peer, hash)
    }
}

/// The record carrying this id, if one does.
pub open spec fn record_with(s: Seq<Record>, id: Seq<char>) -> Option<Record>
    decreases s.len(),
{
    if s.len() == 0 {
        None
    } else if s[0].id@ == id {
        Some(s[0])
    } else {
        record_with(s.drop_first(), id)
    }
}

/// `s` without the records that carry `id`.
pub open spec fn without_id(s: Seq<Record>, id: Seq<char>) -> Seq<Record>
    decreases s.len(),
{
    if s.len() == 0 {
        s
    } else if s.last().id@ == id {
        without_id(s.drop_last(), id)
    } else {
        without_id(s.drop_last(), id).push(s.last())
    }
}

/// The ids of the records whose time is up at `now`, in order.
pub open spec fn expired_ids(s: Seq<Record>, now: u64) -> Seq<Seq<char>>
    decreases s.len(),
{
    if s.len() == 0 {
        Seq::empty()
    } else if s.last().expires_at <= now {
        expired_ids(s.drop_last(), now).push(s.last().id@)
    } else {
        expired_ids(s.drop_last(), now)
    }
}

/// The records of `s`, in order, that `after` no longer holds.
pub open spec fn removed_of(s: Seq<Record>, after: Seq<Record>) -> Seq<Record>
    decreases s.len(),
{
    if s.len() == 0 {
        Seq::empty()
    } else {
        let r = removed_of(s.drop_last(), after);
        if after.contains(s.last()) { r } else { r.push(s.last()) }
    }
}

proof fn lemma_removed_congruent(s: Seq<Record>, a: Seq<Record>, b: Seq<Record>)
    requires
        forall|k: int| 0 <= k < s.len() ==> a.contains(#[trigger] s[k]) == b.contains(s[k]),
    ensures
        removed_of(s, a) == removed_of(s, b),
    decreases s.len(),
{
    if s.len() > 0 {
        assert forall|k: int| 0 <= k < s.drop_last().len() implies a.contains(#[trigger] s.drop_last()[k]) == b.contains(s.drop_last()[k]) by {
            assert(s.drop_last()[k] == s[k]);
        }
        lemma_removed_congruent(s.drop_last(), a, b);
        assert(s.last() == s[s.len() - 1]);
    }
}

/// Records at different places of a run kept by id carry different ids.
proof fn lemma_ids_apart(s: Seq<Record>, j: int)
    requires
        by_id(s),
        0 <= j < s.len(),
    ensures
        forall|k: int| 0 <= k < s.len() && k != j ==> (#[trigger] s[k]).id@ != s[j].id@,
{
    assert forall|k: int| 0 <= k < s.len() && k != j implies (#[trigger] s[k]).id@ != s[j].id@ by {
        if k < j {
            assert(seq_lt(ids(s)[k], ids(s)[j]));
            lemma_lt_irreflexive(ids(s)[k]);
        } else {
            assert(seq_lt(ids(s)[j], ids(s)[k]));
            lemma_lt_irreflexive(ids(s)[j]);
        }
    }
}

/// Removing the file at `path` may have failed: some call of `unlink` on
/// that text answered with an error.
pub open spec fn unlink_may_fail<F: Fn(&str) -> Result<(), String>>(unlink: F, path: Seq<char>) -> bool {
    exists|s: &str, e: String| s@ == path && #[trigger] unlink.ensures((s,), Err::<(), String>(e))
}

proof fn lemma_take_push_contains(iv: Seq<Seq<char>>, i: int, x: Seq<char>)
    requires
        0 <= i < iv.len(),
    ensures
        iv.take(i + 1).contains(x) <==> (iv.take(i).contains(x) || iv[i] == x),
{
    assert(iv.take(i + 1) =~= iv.take(i).push(iv[i]));
    if iv.take(i + 1).contains(x) && iv[i] != x {
        let t = iv.take(i + 1);
        let m = choose|m: int| 0 <= m < t.len() && #[trigger] t[m] == x;
        assert(iv.take(i)[m] == x);
    }
    if iv.take(i).contains(x) {
        let t = iv.take(i);
        let m = choose|m: int| 0 <= m < t.len() && #[trigger] t[m] == x;
        assert(iv.take(i + 1)[m] == x);
    }
    if iv[i] == x {
        assert(iv.take(i + 1)[i] == x);
    }
}

/// Every id `expired_ids` lists belongs to a record whose time is up.
proof fn lemma_expired_ids_expire(s: Seq<Record>, now: u64, m: int)
    requires
        0 <= m < expired_ids(s, now).len(),
    ensures
        exists|y: Record| s.contains(y) && y.id@ == expired_ids(s, now)[m] && y.expires_at <= now,
    decreases s.len(),
{
    if s.len() > 0 {
        let e = expired_ids(s.drop_last(), now);
        if s.last().expires_at <= now && m == e.len() {
            assert(expired_ids(s, now)[m] == s.last().id@);
            assert(s[s.len() - 1] == s.last());
            assert(s.contains(s.last()));
            let y = s.last();
            assert(s.contains(y) && y.id@ == expired_ids(s, now)[m] && y.expires_at <= now);
        } else {
            if s.last().expires_at <= now {
                assert(expired_ids(s, now)[m] == e[m]);
            } else {
                assert(expired_ids(s, now) == e);
            }
            lemma_expired_ids_expire(s.drop_last(), now, m);
            let y = choose|y: Record| s.drop_last().contains(y) && y.id@ == e[m] && y.expires_at <= now;
            let k = choose|k: int| 0 <= k < s.drop_last().len() && s.drop_last()[k] == y;
            assert(s[k] == y);
            assert(s.contains(y) && y.id@ == expired_ids(s, now)[m] && y.expires_at <= now);
        }
    }
}

/// The record that carries an expired id has expired, when ids are unique.
proof fn lemma_expired_holds(s: Seq<Record>, now: u64, id: Seq<char>, r: Record)
    requires
        by_id(s),
        s.contains(r),
        r.id@ == id,
        expired_ids(s, now).contains(id),
    ensures
        r.expires_at <= now,
{
    let m = choose|m: int| 0 <= m < expired_ids(s, now).len() && expired_ids(s, now)[m] == id;
    lemma_expired_ids_expire(s, now, m);
    let y = choose|y: Record| s.contains(y) && y.id@ == expired_ids(s, now)[m] && y.expires_at <= now;
    lemma_one_record_per_id(s, r, y);
}

/// The total size of a run of records.
pub open spec fn total_size(s: Seq<Record>) -> nat
    decreases s.len(),
{
    if s.len() == 0 {
        0
    } else {
        total_size(s.drop_last()) + s.last().size as nat
    }
}

pub proof fn lemma_total_size_prefix(s: Seq<Record>, i: int)
    requires
        0 <= i <= s.len(),
    ensures
        total_size(s.take(i)) <= total_size(s),
    decreases s.len() - i,
{
    if i < s.len() {
        lemma_total_size_prefix(s, i + 1);
        assert(s.take(i + 1).drop_last() =~= s.take(i));
    } else {
        assert(s.take(i) =~= s);
    }
}

pub open spec fn opt_view(o: Option<String>) -> Option<Seq<char>> {
    match o {
        Some(s) => Some(s@),
        None => None,
    }
}

fn same_opt_text(a: &Option<String>, b: &Option<String>) -> (r: bool)
    ensures
        r == (opt_view(*a) == opt_view(*b)),
{
    match (a, b) {
        (Some(x), Some(y)) => same_text(x.as_str(), y.as_str()),
        (None, None) => true,
        _ => false,
    }
}

/// The message a send gets when the record cap is reached.
pub open spec fn full_message(device: Seq<char>) -> Seq<char> {
    "the send queue is full at "@ + dec(MAX_RECORDS as nat) + " pending deliveries, so the send to "@
        + device + " was not queued. Nothing is dropped to make room \u{2014} every record here is a file somebody was told would arrive."@
}

/// The message a send gets when its bytes would take the spool past its
/// byte cap.
pub open spec fn over_bytes_message(staged: u64, size: u64, device: Seq<char>) -> Seq<char> {
    "the send queue already holds "@ + human_bytes_spec(staged) + " of its "@ + human_bytes_spec(
        MAX_SPOOL_BYTES,
    ) + " limit, so the "@ + human_bytes_spec(size) + " send to "@ + device
        + " was not queued. Nothing is dropped to make room \u{2014} every record here is a file somebody was told would arrive."@
}

/// A byte count as a `u64` says it, pinned at the largest one.
pub open spec fn clamp_u64(n: nat) -> u64 {
    if n > u64::MAX {
        u64::MAX
    } else {
        n as u64
    }
}

/// Why one more send of `size` bytes does not fit, if it does not. A full
/// spool refuses: it never drops the oldest record to make room.
pub open spec fn room_refusal(s: Seq<Record>, device: Seq<char>, size: u64) -> Option<Seq<char>> {
    if s.len() >= MAX_RECORDS {
        Some(full_message(device))
    } else if total_size(s) + size > MAX_SPOOL_BYTES {
        Some(over_bytes_message(clamp_u64(total_size(s)), size, device))
    } else {
        None
    }
}

/// `after` is `before` with `r` written in: `r` is held, in place of any
/// record carrying its id, and every other record stays.
pub open spec fn written(before: Seq<Record>, after: Seq<Record>, r: Record) -> bool {
    &&& after.contains(r)
    &&& after.len() <= before.len() + 1
    &&& forall|x: Record|
        #![trigger after.contains(x)]
        after.contains(x) ==> x == r || (before.contains(x) && x.id@ != r.id@)
    &&& forall|x: Record|
        #![trigger before.contains(x)]
        before.contains(x) && x.id@ != r.id@ ==> after.contains(x)
}

/// The refusal a spool that did not load gives every send.
pub open spec fn load_refusal(dir: Seq<char>, reason: Seq<char>) -> Seq<char> {
    "refusing to queue a send into \""@ + dir + "\": it did not load ("@ + reason
        + "). Nothing is queued or swept while that stands."@
}

/// The refusal a send gets when its record file cannot be claimed. A file
/// already under that name is a send that was accepted, so the claim is
/// exclusive and a clash is said aloud rather than written over.
pub open spec fn claim_refusal_text(path: Seq<char>, reason: Seq<char>) -> Seq<char> {
    "refusing to queue a send: the record file \""@ + path + "\" could not be claimed ("@ + reason
        + "). A file already there is a send that was accepted, and writing over it would lose that delivery."@
}

pub fn claim_refusal(path: &str, reason: &str) -> (r: String)
    ensures
        r@ == claim_refusal_text(path@, reason@),
{
    let mut m = own("refusing to queue a send: the record file \"");
    append(&mut m, path);
    append(&mut m, "\" could not be claimed (");
    append(&mut m, reason);
    append(&mut m, "). A file already there is a send that was accepted, and writing over it would lose that delivery.");
    m
}

/// The cap check. Both the pre-staging gate and the enqueue run this, so the
/// answer a send gets before it is staged and the answer it gets as it is
/// written cannot disagree.
fn room_in(records: &Vec<Record>, device: &str, size: u64) -> (r: Result<(), String>)
    ensures
        match room_refusal(records@, device@, size) {
            None => r is Ok,
            Some(m) => r matches Err(e) && e@ == m,
        },
{
    if records.len() >= MAX_RECORDS {
        let mut m = own("the send queue is full at ");
        append(&mut m, dec_string(MAX_RECORDS as u64).as_str());
        append(&mut m, " pending deliveries, so the send to ");
        append(&mut m, device);
        append(&mut m, " was not queued. Nothing is dropped to make room \u{2014} every record here is a file somebody was told would arrive.");
        return Err(m);
    }
    let mut total: u128 = 0;
    let mut i: usize = 0;
    assert(records@.take(0) =~= Seq::<Record>::empty());
    while i < records.len()
        invariant
            i <= records.len(),
            total == total_size(records@.take(i as int)),
            total <= i * 0xffff_ffff_ffff_ffffu128,
            records.len() <= usize::MAX,
        decreases records.len() - i,
    {
        proof {
            assert(records@.take(i + 1).drop_last() =~= records@.take(i as int));
        }
        total = total + records[i].size as u128;
        i += 1;
    }
    assert(records@.take(records.len() as int) =~= records@);
    if total + size as u128 > MAX_SPOOL_BYTES as u128 {
        let staged: u64 = if total > 0xffff_ffff_ffff_ffffu128 {
            0xffff_ffff_ffff_ffffu64
        } else {
            total as u64
        };
        let mut m = own("the send queue already holds ");
        append(&mut m, human_bytes(staged).as_str());
        append(&mut m, " of its ");
        append(&mut m, human_bytes(MAX_SPOOL_BYTES).as_str());
        append(&mut m, " limit, so the ");
        append(&mut m, human_bytes(size).as_str());
        append(&mut m, " send to ");
        append(&mut m, device);
        append(&mut m, " was not queued. Nothing is dropped to make room \u{2014} every record here is a file somebody was told would arrive.");
        return Err(m);
    }
    Ok(())
}


/// The tags of a run of records, as they stored them.
pub open spec fn record_tags(s: Seq<Record>) -> Seq<Seq<char>> {
    s.map_values(|r: Record| r.tag@)
}

/// The tag each stem's bytes are pinned under.
pub open spec fn stem_tags(ss: Seq<Seq<char>>) -> Seq<Seq<char>> {
    ss.map_values(|x: Seq<char>| tag_of(x))
}

fn push_stem_tags(out: &mut Vec<String>, v: &Vec<String>)
    ensures
        views(final(out)@) == views(old(out)@) + stem_tags(views(v@)),
{
    let mut i: usize = 0;
    let ghost o0 = views(out@);
    while i < v.len()
        invariant
            i <= v.len(),
            views(out@) == o0 + stem_tags(views(v@)).take(i as int),
        decreases v.len() - i,
    {
        let t = tag_name(v[i].as_str());
        let ghost before = out@;
        out.push(t);
        proof {
            assert(views(out@) =~= views(before).push(t@));
            assert(views(out@) =~= o0 + stem_tags(views(v@)).take(i + 1));
        }
        i += 1;
    }
    assert(stem_tags(views(v@)).take(v.len() as int) =~= stem_tags(views(v@)));
}

impl Outbox {
    /// Everything but the counter is the same in `a` and `b`.
    pub open spec fn same_contents(a: &Outbox, b: &Outbox) -> bool {
        &&& a.dir_view() == b.dir_view()
        &&& a.records() == b.records()
        &&& a.load_error_view() == b.load_error_view()
        &&& a.quarantined_view() == b.quarantined_view()
        &&& a.foreign_view() == b.foreign_view()
        &&& a.io_faults_view() == b.io_faults_view()
    }

    /// The records queued for one peer, in id order. The drain groups by
    /// peer, so five records for one sleeping device cost one dial.
    pub fn for_peer(&self, peer: &str) -> (r: Vec<Record>)
        ensures
            r@ == peer_records(self.records(), peer@),
    {
        let recs = &self.spool.records;
        let mut out: Vec<Record> = Vec::new();
        let mut i: usize = 0;
        assert(recs@.take(0) =~= Seq::<Record>::empty());
        while i < recs.len()
            invariant
                i <= recs.len(),
                recs@ == self.records(),
                out@ == peer_records(recs@.take(i as int), peer@),
            decreases recs.len() - i,
        {
            proof {
                assert(recs@.take(i + 1).drop_last() =~= recs@.take(i as int));
                assert(recs@.take(i + 1).last() == recs@[i as int]);
            }
            if same_text(recs[i].peer.as_str(), peer) {
                out.push(recs[i].clone());
            }
            i += 1;
        }
        assert(recs@.take(recs.len() as int) =~= recs@);
        out
    }

    /// The pending record for this exact (peer, content) pair, if there is
    /// one: the lookup that keeps a retried call from becoming a second
    /// record pinning the same bytes.
    pub fn find_pending(&self, peer: &str, hash: &str) -> (r: Option<Record>)
        ensures
            r == first_pending(self.records(), peer@, hash@),
    {
        let recs = &self.spool.records;
        let mut i: usize = 0;
        assert(recs@.subrange(0, recs.len() as int) =~= recs@);
        while i < recs.len()
            invariant
                i <= recs.len(),
                recs@ == self.records(),
                first_pending(recs@, peer@, hash@) == first_pending(recs@.subrange(i as int, recs.len() as int), peer@, hash@),
            decreases recs.len() - i,
        {
            proof {
                assert(recs@.subrange(i as int, recs.len() as int)[0] == recs@[i as int]);
                assert(recs@.subrange(i as int, recs.len() as int).drop_first() =~= recs@.subrange(i + 1, recs.len() as int));
            }
            if same_text(recs[i].peer.as_str(), peer) && same_text(recs[i].hash.as_str(), hash) {
                return Some(recs[i].clone());
            }
            i += 1;
        }
        None
    }

    /// Does the spool hold a record with this id?
    pub fn holds(&self, id: &str) -> (b: bool)
        ensures
            b == (record_with(self.records(), id@) is Some),
    {
        let recs = &self.spool.records;
        let mut i: usize = 0;
        assert(recs@.subrange(0, recs.len() as int) =~= recs@);
        while i < recs.len()
            invariant
                i <= recs.len(),
                recs@ == self.records(),
                record_with(recs@, id@) == record_with(recs@.subrange(i as int, recs.len() as int), id@),
            decreases recs.len() - i,
        {
            proof {
                assert(recs@.subrange(i as int, recs.len() as int)[0] == recs@[i as int]);
                assert(recs@.subrange(i as int, recs.len() as int).drop_first() =~= recs@.subrange(i + 1, recs.len() as int));
            }
            if same_text(recs[i].id.as_str(), id) {
                return true;
            }
            i += 1;
        }
        false
    }

    /// Mint the next record id: the millisecond it was accepted at, then the
    /// counter that breaks ties inside that millisecond. The counter is the
    /// whole of what makes an id unique, which is why `load` seeds it past
    /// every counter the directory holds.
    pub fn next_id(&mut self, millis: u64) -> (r: String)
        ensures
            r@ == id_spec(millis, old(self).counter()),
            final(self).counter() == (if old(self).counter() == u64::MAX {
                0
            } else {
                (old(self).counter() + 1) as u64
            }),
            Outbox::same_contents(final(self), old(self)),
    {
        let seq = self.seq;
        self.seq = seq.wrapping_add(1);
        let mut s = String::new();
        push_dec_padded(&mut s, millis, 13);
        push_char(&mut s, '-');
        push_dec_padded(&mut s, seq, 4);
        proof {
            reveal_strlit("-");
        }
        assert(s@ =~= id_spec(millis, seq));
        s
    }

    /// Would one more send of `size` bytes fit? Asked before the bytes are
    /// staged, so a refused send never costs a copy of the file.
    pub fn room_for(&self, device: &str, size: u64) -> (r: Result<(), String>)
        ensures
            match room_refusal(self.records(), device@, size) {
                None => r is Ok,
                Some(m) => r matches Err(e) && e@ == m,
            },
    {
        room_in(&self.spool.records, device, size)
    }

    /// Decide one accepted send: the record to write, or why it is refused.
    /// The spool owns every field the caller must not choose: the tag, both
    /// timestamps and the attempt counters. The record enters the spool
    /// through `insert_written`, once its file is on disk: a record held in
    /// memory but never written is a promise no restart can keep.
    pub fn enqueue(&self, item: Staged, now: u64) -> (r: Result<Record, String>)
        requires
            now <= u64::MAX - RECORD_TTL_SECS,
        ensures
            match self.load_error_view() {
                Some(reason) => r matches Err(e) && e@ == load_refusal(self.dir_view(), reason@),
                None => match room_refusal(self.records(), item.device@, item.size) {
                    Some(m) => r matches Err(e) && e@ == m,
                    None => r matches Ok(rec) && {
                        &&& rec.id == item.id
                        &&& rec.peer == item.peer
                        &&& rec.device == item.device
                        &&& rec.source == item.source
                        &&& rec.name == item.name
                        &&& rec.size == item.size
                        &&& rec.hash == item.hash
                        &&& rec.tag@ == tag_of(item.id@)
                        &&& rec.enqueued_at == now
                        &&& rec.expires_at == now + RECORD_TTL_SECS
                        &&& rec.attempts == 0
                        &&& rec.last_attempt_at == 0
                        &&& rec.last_error is None
                    },
                },
            },
            r is Ok ==> self.records().len() < MAX_RECORDS && total_size(self.records()) + item.size
                <= MAX_SPOOL_BYTES,
    {
        match &self.spool.load_error {
            Some(reason) => {
                let mut m = own("refusing to queue a send into \"");
                append(&mut m, self.dir.as_str());
                append(&mut m, "\": it did not load (");
                append(&mut m, reason.as_str());
                append(&mut m, "). Nothing is queued or swept while that stands.");
                return Err(m);
            },
            None => {},
        }
        match room_in(&self.spool.records, item.device.as_str(), item.size) {
            Err(e) => {
                return Err(e);
            },
            Ok(()) => {},
        }
        let tag = tag_name(item.id.as_str());
        Ok(Record {
            tag,
            id: item.id,
            peer: item.peer,
            device: item.device,
            source: item.source,
            name: item.name,
            size: item.size,
            hash: item.hash,
            enqueued_at: now,
            expires_at: now + RECORD_TTL_SECS,
            attempts: 0,
            last_attempt_at: 0,
            last_error: None,
        })
    }

    /// A record whose file is now on disk joins the spool, in place of any
    /// record with the same id.
    pub fn insert_written(&mut self, record: Record)
        requires
            old(self).wf(),
        ensures
            final(self).wf(),
            written(old(self).records(), final(self).records(), record),
            final(self).dir_view() == old(self).dir_view(),
            final(self).load_error_view() == old(self).load_error_view(),
            final(self).quarantined_view() == old(self).quarantined_view(),
            final(self).foreign_view() == old(self).foreign_view(),
            final(self).io_faults_view() == old(self).io_faults_view(),
            final(self).counter() == old(self).counter(),
    {
        upsert_record(&mut self.spool.records, record);
    }

    /// A delivery landed, or a record must leave: take it out of the spool
    /// once its file is gone. `unlinked` is what removing `path_of(id)` gave
    /// (a file that was already gone counts as removed). A record whose file
    /// would not go stays, because it comes back on the next load.
    pub fn complete(&mut self, id: &str, unlinked: Result<(), String>) -> (r: Result<Option<Record>, String>)
        requires
            old(self).wf(),
        ensures
            final(self).wf(),
            record_with(old(self).records(), id@) is None ==> r == Ok::<Option<Record>, String>(None)
                && final(self).records() == old(self).records(),
            record_with(old(self).records(), id@) matches Some(x) ==> match unlinked {
                Err(e) => r == Err::<Option<Record>, String>(e) && final(self).records() == old(self).records(),
                Ok(_) => r == Ok::<Option<Record>, String>(Some(x)) && final(self).records()
                    == without_id(old(self).records(), id@),
            },
            final(self).dir_view() == old(self).dir_view(),
            final(self).load_error_view() == old(self).load_error_view(),
            final(self).quarantined_view() == old(self).quarantined_view(),
            final(self).foreign_view() == old(self).foreign_view(),
            final(self).io_faults_view() == old(self).io_faults_view(),
            final(self).counter() == old(self).counter(),
    {
        let recs = &self.spool.records;
        let ghost s0 = recs@;
        let mut i: usize = 0;
        let mut found = false;
        assert(recs@.subrange(0, recs.len() as int) =~= recs@);
        while i < recs.len() && !found
            invariant
                i <= recs.len(),
                recs@ == s0,
                s0 == old(self).records(),
                by_id(s0),
                forall|k: int| 0 <= k < i ==> (#[trigger] s0[k]).id@ != id@,
                found ==> i < recs.len() && s0[i as int].id@ == id@,
                record_with(s0, id@) == record_with(s0.subrange(i as int, s0.len() as int), id@),
            decreases recs.len() - i + (if found { 0int } else { 1int }),
        {
            proof {
                assert(s0.subrange(i as int, s0.len() as int)[0] == s0[i as int]);
                assert(s0.subrange(i as int, s0.len() as int).drop_first() =~= s0.subrange(i + 1, s0.len() as int));
            }
            if same_text(recs[i].id.as_str(), id) {
                found = true;
            } else {
                i += 1;
            }
        }
        if !found {
            return Ok(None);
        }
        match unlinked {
            Err(e) => Err(e),
            Ok(()) => {
                proof {
                    lemma_remove_unique(s0, i as int, id@);
                }
                let x = self.spool.records.remove(i);
                Ok(Some(x))
            },
        }
    }

    /// Every record whose time is up at `now`, taken out and handed back, in
    /// the spool's (id) order, so the caller can release each pin. `unlink`
    /// removes one record's file; a record whose file would not go stays,
    /// because it comes back on the next load, and its pin with it.
    pub fn take_expired<F: Fn(&str) -> Result<(), String>>(&mut self, now: u64, unlink: &F) -> (gone: Vec<Record>)
        requires
            old(self).wf(),
            forall|s: &str| #[trigger] unlink.requires((s,)),
        ensures
            final(self).wf(),
            gone@ == removed_of(old(self).records(), final(self).records()),
            forall|x: Record| #[trigger] final(self).records().contains(x) ==> old(self).records().contains(x),
            forall|x: Record| #[trigger] old(self).records().contains(x) && x.expires_at > now ==> final(self).records().contains(x),
            forall|x: Record| #[trigger] old(self).records().contains(x) && x.expires_at <= now && final(self).records().contains(x)
                ==> unlink_may_fail(*unlink, join(old(self).dir_view(), x.id@ + ".json"@)),
            final(self).dir_view() == old(self).dir_view(),
            final(self).load_error_view() == old(self).load_error_view(),
            final(self).quarantined_view() == old(self).quarantined_view(),
            final(self).foreign_view() == old(self).foreign_view(),
            final(self).io_faults_view() == old(self).io_faults_view(),
            final(self).counter() == old(self).counter(),
    {
        let ghost o = self.records();
        let ghost dir = self.dir_view();
        assert(by_id(o));
        let snap = self.list();
        let mut gone: Vec<Record> = Vec::new();
        let mut j: usize = 0;
        proof {
            assert(o.take(0) =~= Seq::<Record>::empty());
        }
        while j < snap.len()
            invariant
                j <= snap.len(),
                snap@ == o,
                o == old(self).records(),
                by_id(o),
                dir == old(self).dir_view(),
                forall|s: &str| #[trigger] unlink.requires((s,)),
                self.wf(),
                self.dir_view() == old(self).dir_view(),
                self.load_error_view() == old(self).load_error_view(),
                self.quarantined_view() == old(self).quarantined_view(),
                self.foreign_view() == old(self).foreign_view(),
                self.io_faults_view() == old(self).io_faults_view(),
                self.counter() == old(self).counter(),
                forall|x: Record| #[trigger] self.records().contains(x) ==> o.contains(x),
                forall|k: int| j <= k < o.len() ==> self.records().contains(#[trigger] o[k]),
                forall|k: int| 0 <= k < j && (#[trigger] o[k]).expires_at > now ==> self.records().contains(o[k]),
                forall|k: int| 0 <= k < j && (#[trigger] o[k]).expires_at <= now && self.records().contains(o[k])
                    ==> unlink_may_fail(*unlink, join(dir, o[k].id@ + ".json"@)),
                gone@ == removed_of(o.take(j as int), self.records()),
            decreases snap.len() - j,
        {
            let ghost s0 = self.records();
            let ghost g0 = gone@;
            let ghost x0 = o[j as int];
            proof {
                assert(o.take(j + 1) =~= o.take(j as int).push(x0));
                assert(o.take(j + 1).drop_last() =~= o.take(j as int));
                assert(o.take(j + 1).last() == x0);
                assert(s0.contains(x0));
                lemma_ids_apart(o, j as int);
            }
            if snap[j].expires_at <= now {
                let id = snap[j].id.as_str();
                let path = self.path_of(id);
                let ps = path.as_str();
                let unlinked = unlink(ps);
                let done = self.complete(id, unlinked);
                proof {
                    lemma_record_with_is_member(s0, x0.id@);
                    lemma_record_with_found(s0, x0);
                }
                match done {
                    Ok(Some(rec)) => {
                        proof {
                            assert(s0.contains(rec) && rec.id@ == x0.id@);
                            lemma_one_record_per_id(o, rec, x0);
                            assert forall|y: Record| #[trigger] self.records().contains(y) <==> (s0.contains(y) && y.id@ != x0.id@) by {
                                lemma_without_id_contains(s0, x0.id@, y);
                            }
                            assert(!self.records().contains(x0));
                            let t = o.take(j as int);
                            assert forall|k: int| 0 <= k < t.len() implies s0.contains(#[trigger] t[k]) == self.records().contains(t[k]) by {
                                assert(t[k] == o[k]);
                                assert(o[k].id@ != x0.id@);
                            }
                            lemma_removed_congruent(t, s0, self.records());
                        }
                        gone.push(rec);
                        proof {
                            assert(gone@ =~= removed_of(o.take(j + 1), self.records()));
                        }
                    },
                    Ok(None) => {
                        proof {
                            assert(false);
                        }
                    },
                    Err(e) => {
                        proof {
                            assert(unlink.ensures((ps,), Err::<(), String>(e)));
                            assert(unlink_may_fail(*unlink, join(dir, x0.id@ + ".json"@)));
                            assert(self.records() == s0);
                            assert(self.records().contains(x0));
                            assert(removed_of(o.take(j + 1), self.records()) == removed_of(o.take(j as int), self.records()));
                            assert(gone@ =~= removed_of(o.take(j + 1), self.records()));
                        }
                    },
                }
            } else {
                proof {
                    assert(gone@ =~= removed_of(o.take(j + 1), self.records()));
                }
            }
            j += 1;
        }
        proof {
            assert(o.take(j as int) =~= o);
            assert forall|x: Record| #[trigger] o.contains(x) && x.expires_at > now implies self.records().contains(x) by {
                let k = choose|k: int| 0 <= k < o.len() && o[k] == x;
            }
            assert forall|x: Record| #[trigger] o.contains(x) && x.expires_at <= now && self.records().contains(x)
                implies unlink_may_fail(*unlink, join(dir, x.id@ + ".json"@)) by {
                let k = choose|k: int| 0 <= k < o.len() && o[k] == x;
            }
        }
        gone
    }

    /// Note one delivery attempt: the record to write back, or `None` when
    /// there is nothing to write. A repeat of the same reason is not an
    /// attempt: a record held on a condition that does not change would
    /// otherwise be rewritten on every pass and report thousands of attempts
    /// nobody made. The written record enters the spool through
    /// `insert_written`.
    pub fn record_attempt(&self, id: &str, error: Option<String>, now: u64) -> (r: Option<Record>)
        ensures
            match record_with(self.records(), id@) {
                None => r is None,
                Some(cur) => if opt_view(cur.last_error) == opt_view(error) {
                    r is None
                } else {
                    r matches Some(next) && {
                        &&& next.id == cur.id
                        &&& next.peer == cur.peer
                        &&& next.device == cur.device
                        &&& next.source == cur.source
                        &&& next.name == cur.name
                        &&& next.size == cur.size
                        &&& next.hash == cur.hash
                        &&& next.tag == cur.tag
                        &&& next.enqueued_at == cur.enqueued_at
                        &&& next.expires_at == cur.expires_at
                        &&& next.attempts == (if cur.attempts == u32::MAX {
                            u32::MAX
                        } else {
                            (cur.attempts + 1) as u32
                        })
                        &&& next.last_attempt_at == now
                        &&& next.last_error == error
                    }
                },
            },
    {
        let recs = &self.spool.records;
        let mut i: usize = 0;
        assert(recs@.subrange(0, recs.len() as int) =~= recs@);
        while i < recs.len()
            invariant
                i <= recs.len(),
                recs@ == self.records(),
                record_with(recs@, id@) == record_with(recs@.subrange(i as int, recs.len() as int), id@),
            decreases recs.len() - i,
        {
            proof {
                assert(recs@.subrange(i as int, recs.len() as int)[0] == recs@[i as int]);
                assert(recs@.subrange(i as int, recs.len() as int).drop_first() =~= recs@.subrange(i + 1, recs.len() as int));
            }
            if same_text(recs[i].id.as_str(), id) {
                let cur = &recs[i];
                if same_opt_text(&cur.last_error, &error) {
                    return None;
                }
                let mut next = cur.clone();
                next.attempts = next.attempts.saturating_add(1);
                next.last_attempt_at = now;
                next.last_error = error;
                return Some(next);
            }
            i += 1;
        }
        None
    }

    /// The ids of every record past its time at `now`, in id order. Each one
    /// leaves through `complete`, and its pin is released after that.
    pub fn expired(&self, now: u64) -> (r: Vec<String>)
        ensures
            views(r@) == expired_ids(self.records(), now),
    {
        let recs = &self.spool.records;
        let mut out: Vec<String> = Vec::new();
        let mut i: usize = 0;
        assert(recs@.take(0) =~= Seq::<Record>::empty());
        while i < recs.len()
            invariant
                i <= recs.len(),
                recs@ == self.records(),
                views(out@) == expired_ids(recs@.take(i as int), now),
            decreases recs.len() - i,
        {
            proof {
                assert(recs@.take(i + 1).drop_last() =~= recs@.take(i as int));
                assert(recs@.take(i + 1).last() == recs@[i as int]);
            }
            if recs[i].expires_at <= now {
                let c = recs[i].id.clone();
                let ghost before = out@;
                out.push(c);
                proof {
                    assert(views(out@) =~= views(before).push(c@));
                }
            }
            i += 1;
        }
        assert(recs@.take(recs.len() as int) =~= recs@);
        out
    }

    /// The keep-set for the tag sweep: every tag this spool still needs,
    /// including those of quarantined, newer-schema and unreadable files,
    /// because bytes this build cannot account for are the last it should
    /// unpin. `None` when the directory did not load, and the sweep must not
    /// run then: the empty record list of an unreadable spool would unpin
    /// every pending file.
    pub fn live_tags(&self) -> (r: Option<Vec<String>>)
        ensures
            match self.load_error_view() {
                Some(_) => r is None,
                None => r matches Some(v) && views(v@) == record_tags(self.records()) + stem_tags(
                    self.quarantined_view(),
                ) + stem_tags(self.foreign_view()) + stem_tags(self.io_faults_view()),
            },
    {
        if self.spool.load_error.is_some() {
            return None;
        }
        let recs = &self.spool.records;
        let mut out: Vec<String> = Vec::new();
        let mut i: usize = 0;
        while i < recs.len()
            invariant
                i <= recs.len(),
                recs@ == self.records(),
                views(out@) == record_tags(recs@).take(i as int),
            decreases recs.len() - i,
        {
            let c = recs[i].tag.clone();
            let ghost before = out@;
            out.push(c);
            proof {
                assert(views(out@) =~= views(before).push(c@));
                assert(views(out@) =~= record_tags(recs@).take(i + 1));
            }
            i += 1;
        }
        assert(record_tags(recs@).take(recs.len() as int) =~= record_tags(recs@));
        push_stem_tags(&mut out, &self.spool.quarantined);
        push_stem_tags(&mut out, &self.spool.foreign);
        push_stem_tags(&mut out, &self.spool.io_faults);
        Some(out)
    }
}

/// In a run kept by id, the record at `i` is the one with its id, and
/// removing it keeps the run kept by id.
proof fn lemma_without_id_contains(s: Seq<Record>, id: Seq<char>, y: Record)
    ensures
        without_id(s, id).contains(y) <==> (s.contains(y) && y.id@ != id),
    decreases s.len(),
{
    if s.len() > 0 {
        let d = s.drop_last();
        let l = s.last();
        lemma_without_id_contains(d, id, y);
        let w = without_id(d, id);
        assert(s =~= d.push(l));
        assert(s.contains(y) <==> (d.contains(y) || y == l)) by {
            if s.contains(y) && y != l {
                let k = choose|k: int| 0 <= k < s.len() && s[k] == y;
                assert(d[k] == y);
            }
            if d.contains(y) {
                let k = choose|k: int| 0 <= k < d.len() && d[k] == y;
                assert(s[k] == y);
            }
            if y == l {
                assert(s[s.len() - 1] == y);
            }
        }
        if l.id@ != id {
            assert(w.push(l).contains(y) <==> (w.contains(y) || y == l)) by {
                if w.push(l).contains(y) && y != l {
                    let k = choose|k: int| 0 <= k < w.push(l).len() && w.push(l)[k] == y;
                    assert(w[k] == y);
                }
                if w.contains(y) {
                    let k = choose|k: int| 0 <= k < w.len() && w[k] == y;
                    assert(w.push(l)[k] == y);
                }
                if y == l {
                    assert(w.push(l)[w.len() as int] == y);
                }
            }
        }
    }
}

proof fn lemma_record_with_found(s: Seq<Record>, x: Record)
    requires
        s.contains(x),
    ensures
        record_with(s, x.id@) is Some,
    decreases s.len(),
{
    if s[0] != x || s[0].id@ != x.id@ {
        if s[0].id@ != x.id@ {
            let k = choose|k: int| 0 <= k < s.len() && s[k] == x;
            assert(k > 0);
            assert(s.drop_first()[k - 1] == x);
            lemma_record_with_found(s.drop_first(), x);
        }
    }
}

proof fn lemma_record_with_is_member(s: Seq<Record>, id: Seq<char>)
    ensures
        record_with(s, id) matches Some(y) ==> s.contains(y) && y.id@ == id,
    decreases s.len(),
{
    if s.len() > 0 && s[0].id@ != id {
        lemma_record_with_is_member(s.drop_first(), id);
        match record_with(s.drop_first(), id) {
            Some(y) => {
                let k = choose|k: int| 0 <= k < s.drop_first().len() && s.drop_first()[k] == y;
                assert(s[k + 1] == y);
            },
            None => {},
        }
    } else if s.len() > 0 {
        assert(s[0] == s[0]);
    }
}

proof fn lemma_one_record_per_id(s: Seq<Record>, x: Record, y: Record)
    requires
        by_id(s),
        s.contains(x),
        s.contains(y),
        x.id@ == y.id@,
    ensures
        x == y,
{
    let i = choose|i: int| 0 <= i < s.len() && s[i] == x;
    let j = choose|j: int| 0 <= j < s.len() && s[j] == y;
    if i < j {
        assert(seq_lt(ids(s)[i], ids(s)[j]));
        lemma_lt_irreflexive(ids(s)[i]);
    } else if j < i {
        assert(seq_lt(ids(s)[j], ids(s)[i]));
        lemma_lt_irreflexive(ids(s)[j]);
    }
}

proof fn lemma_expired_listed(s: Seq<Record>, now: u64, x: Record)
    requires
        s.contains(x),
        x.expires_at <= now,
    ensures
        expired_ids(s, now).contains(x.id@),
    decreases s.len(),
{
    let k = choose|k: int| 0 <= k < s.len() && s[k] == x;
    if k == s.len() - 1 {
        assert(expired_ids(s, now).last() == x.id@);
    } else {
        assert(s.drop_last()[k] == x);
        lemma_expired_listed(s.drop_last(), now, x);
        let e = expired_ids(s.drop_last(), now);
        let m = choose|m: int| 0 <= m < e.len() && e[m] == x.id@;
        if s.last().expires_at <= now {
            assert(expired_ids(s, now)[m] == x.id@);
        }
    }
}

proof fn lemma_remove_unique(s0: Seq<Record>, i: int, id: Seq<char>)
    requires
        by_id(s0),
        0 <= i < s0.len(),
        s0[i].id@ == id,
    ensures
        by_id(s0.remove(i)),
        without_id(s0, id) == s0.remove(i),
{
    assert forall|k: int| 0 <= k < s0.len() && k != i implies (#[trigger] s0[k]).id@ != id by {
        if k > i {
            assert(seq_lt(ids(s0)[i], ids(s0)[k]));
            lemma_lt_irreflexive(ids(s0)[k]);
        } else {
            assert(seq_lt(ids(s0)[k], ids(s0)[i]));
            lemma_lt_irreflexive(ids(s0)[k]);
        }
    }
    lemma_filter_out_one(s0, i, id);
    let s1 = s0.remove(i);
    assert(ids(s1) =~= ids(s0).remove(i));
    assert forall|a: int, b: int| 0 <= a < b < ids(s1).len() implies seq_lt(
        #[trigger] ids(s1)[a],
        #[trigger] ids(s1)[b],
    ) by {
        if b < i {
        } else if a < i {
            assert(ids(s1)[b] == ids(s0)[b + 1]);
        } else {
            assert(ids(s1)[a] == ids(s0)[a + 1]);
            assert(ids(s1)[b] == ids(s0)[b + 1]);
        }
    }
}

/// Removing the one record that carries `id` is dropping `id`.
proof fn lemma_filter_out_one(s: Seq<Record>, i: int, id: Seq<char>)
    requires
        0 <= i < s.len(),
        s[i].id@ == id,
        forall|k: int| 0 <= k < s.len() && k != i ==> (#[trigger] s[k]).id@ != id,
    ensures
        without_id(s, id) == s.remove(i),
    decreases s.len(),
{
    if i == s.len() - 1 {
        assert(s.drop_last() =~= s.remove(i));
        lemma_filter_keeps_all(s.drop_last(), id);
    } else {
        lemma_filter_out_one(s.drop_last(), i, id);
        assert(s.remove(i) =~= s.drop_last().remove(i).push(s.last()));
    }
}

/// Dropping an id nothing carries keeps everything.
proof fn lemma_filter_keeps_all(s: Seq<Record>, id: Seq<char>)
    requires
        forall|k: int| 0 <= k < s.len() ==> (#[trigger] s[k]).id@ != id,
    ensures
        without_id(s, id) == s,
    decreases s.len(),
{
    if s.len() > 0 {
        lemma_filter_keeps_all(s.drop_last(), id);
        assert(s =~= s.drop_last().push(s.last()));
    }
}

// ── Laws of the id ─────────────────────────────────────────────────────────

proof fn lemma_dec_digits(n: nat)
    ensures
        all_digits(dec(n)),
        digits_value(dec(n)) == n,
        dec(n).len() > 0,
    decreases n,
{
    lemma_dec_nonempty(n);
    if n < 10 {
        let c = dec(n)[0];
        assert(dec(n).drop_last() =~= Seq::<char>::empty());
        assert(c as u32 == n + 48);
        assert(dec(n).last() == c);
        assert(digits_value(dec(n)) == digits_value(dec(n).drop_last()) * 10 + ((c as u32) - 48) as nat);
    } else {
        lemma_dec_digits(n / 10);
        let c = dec(n).last();
        assert(dec(n).drop_last() =~= dec(n / 10));
        assert(c as u32 == n % 10 + 48);
        assert((n / 10) * 10 + n % 10 == n) by (nonlinear_arith);
        assert(digits_value(dec(n)) == digits_value(dec(n / 10)) * 10 + ((c as u32) - 48) as nat);
        assert forall|i: int| 0 <= i < dec(n).len() implies is_digit(#[trigger] dec(n)[i]) by {
            if i < dec(n).len() - 1 {
                assert(dec(n)[i] == dec(n / 10)[i]);
            }
        }
    }
}

proof fn lemma_zeros_value(k: nat)
    ensures
        all_digits(Seq::new(k, |i: int| '0')),
        digits_value(Seq::new(k, |i: int| '0')) == 0,
    decreases k,
{
    if k > 0 {
        lemma_zeros_value((k - 1) as nat);
        assert(Seq::new(k, |i: int| '0').drop_last() =~= Seq::new((k - 1) as nat, |i: int| '0'));
    }
}

proof fn lemma_leading_zeros(z: Seq<char>, t: Seq<char>)
    requires
        all_digits(z),
        digits_value(z) == 0,
        all_digits(t),
    ensures
        all_digits(z + t),
        digits_value(z + t) == digits_value(t),
    decreases t.len(),
{
    if t.len() == 0 {
        assert(z + t =~= z);
    } else {
        lemma_leading_zeros(z, t.drop_last());
        assert((z + t).drop_last() =~= z + t.drop_last());
        assert((z + t).last() == t.last());
        assert forall|i: int| 0 <= i < (z + t).len() implies is_digit(#[trigger] (z + t)[i]) by {
            if i >= z.len() {
                assert((z + t)[i] == t[i - z.len()]);
            }
        }
    }
}

proof fn lemma_dec_padded_digits(n: nat, w: nat)
    ensures
        all_digits(dec_padded(n, w)),
        digits_value(dec_padded(n, w)) == n,
        dec_padded(n, w).len() > 0,
{
    lemma_dec_digits(n);
    if dec(n).len() < w {
        let z = Seq::new((w - dec(n).len()) as nat, |i: int| '0');
        lemma_zeros_value((w - dec(n).len()) as nat);
        lemma_leading_zeros(z, dec(n));
    }
}

proof fn lemma_last_dash_after(a: Seq<char>, b: Seq<char>)
    requires
        all_digits(b),
    ensures
        last_dash(a + seq!['-'] + b) == a.len(),
    decreases b.len(),
{
    let s = a + seq!['-'] + b;
    if b.len() == 0 {
        assert(s.last() == '-');
    } else {
        assert(s.drop_last() =~= a + seq!['-'] + b.drop_last());
        assert(s.last() == b.last());
        assert(is_digit(b.last()));
        lemma_last_dash_after(a, b.drop_last());
    }
}

/// A minted id carries exactly the counter it was minted with, read back the
/// way the directory's stems are read: so two ids minted with different
/// counters are different ids, whatever the clock said.
pub proof fn law_id_carries_its_counter(millis: u64, seq: u64)
    ensures
        seq_of_spec(id_spec(millis, seq)) == Some(seq),
{
    reveal_strlit("-");
    let a = dec_padded(millis as nat, 13);
    let b = dec_padded(seq as nat, 4);
    let id = id_spec(millis, seq);
    assert(id =~= a + seq!['-'] + b);
    lemma_dec_padded_digits(seq as nat, 4);
    lemma_last_dash_after(a, b);
    assert(id.subrange(a.len() + 1 as int, id.len() as int) =~= b);
    assert(is_digit(b[0]));
}

/// Ids minted with different counters differ.
pub proof fn law_ids_with_different_counters_differ(m1: u64, a: u64, m2: u64, b: u64)
    requires
        a != b,
    ensures
        id_spec(m1, a) != id_spec(m2, b),
{
    law_id_carries_its_counter(m1, a);
    law_id_carries_its_counter(m2, b);
}

/// While the clock fits thirteen digits and the counter four, an id is
/// thirteen digits of milliseconds, a dash and four digits of counter, and
/// ids sort the way they were minted: a later millisecond, or the same
/// millisecond with a higher counter, gives the greater id.
pub proof fn law_ids_sort_as_minted(m1: u64, a: u64, m2: u64, b: u64)
    requires
        m1 < crate::text::pow10(13),
        m2 < crate::text::pow10(13),
        a < 10000,
        b < 10000,
        m1 < m2 || (m1 == m2 && a < b),
    ensures
        id_spec(m1, a).len() == 18,
        id_spec(m1, a)[13] == '-',
        crate::order::seq_lt(id_spec(m1, a), id_spec(m2, b)),
{
    assert(crate::text::pow10(4) == 10000) by {
        reveal_with_fuel(crate::text::pow10, 5);
    }
    crate::text::lemma_padded_is_digits(m1 as nat, 13);
    crate::text::lemma_padded_is_digits(m2 as nat, 13);
    crate::text::lemma_padded_is_digits(a as nat, 4);
    crate::text::lemma_padded_is_digits(b as nat, 4);
    reveal_strlit("-");
    let h1 = dec_padded(m1 as nat, 13);
    let h2 = dec_padded(m2 as nat, 13);
    let t1 = "-"@ + dec_padded(a as nat, 4);
    let t2 = "-"@ + dec_padded(b as nat, 4);
    assert(id_spec(m1, a) =~= h1 + t1);
    assert(id_spec(m2, b) =~= h2 + t2);
    assert((h1 + t1)[13] == t1[0]);
    if m1 < m2 {
        crate::text::lemma_digits_order(m1 as nat, m2 as nat, 13);
        crate::text::lemma_lt_concat(h1, h2, t1, t2);
    } else {
        crate::text::lemma_digits_order(a as nat, b as nat, 4);
        crate::text::lemma_lt_concat("-"@, "-"@, dec_padded(a as nat, 4), dec_padded(b as nat, 4));
        crate::text::lemma_lt_concat(h1, h2, t1, t2);
    }
}

/// An id minted from a counter at or past the one `load` (or a `reload`)
/// seeds repeats no counter any stem in the directory already carries, short
/// of the largest counter a stem can name: so it can take no pin a
/// quarantined, foreign, unreadable or live record still holds.
pub proof fn law_minted_id_is_fresh(o: Outbox, millis: u64)
    requires
        o.counter() >= next_counter(o.stems()),
    ensures
        forall|i: int|
            0 <= i < o.stems().len() ==> (#[trigger] seq_of_spec(o.stems()[i]) matches Some(n) ==> (n
                != u64::MAX ==> seq_of_spec(id_spec(millis, o.counter())) != Some(n))),
{
    lemma_next_counter_is_past(o.stems());
    law_id_carries_its_counter(millis, o.counter());
}

/// A send `enqueue` accepted and `insert_written` wrote never takes the
/// spool past its record cap: the acceptance is what the cap check allowed
/// (`room_refusal` answered nothing), and the write adds the one record.
pub proof fn law_written_send_keeps_the_cap(before: Outbox, after: Outbox, item: Staged, r: Record)
    requires
        before.wf(),
        before.load_error_view() is None,
        room_refusal(before.records(), item.device@, item.size) is None,
        written(before.records(), after.records(), r),
    ensures
        after.records().len() <= MAX_RECORDS,
        after.records().contains(r),
{
}

proof fn lemma_last_occurrence_bounds(s: Seq<char>, m: Seq<char>)
    ensures
        last_occurrence(s, m) >= 0 ==> {
            let k = last_occurrence(s, m);
            &&& 0 <= k
            &&& k + m.len() <= s.len()
            &&& s.subrange(k, k + m.len() as int) == m
        },
    decreases s.len(),
{
    if s.len() >= m.len() && s.len() > 0 && s.subrange(s.len() - m.len(), s.len() as int) != m {
        lemma_last_occurrence_bounds(s.drop_last(), m);
        let k = last_occurrence(s.drop_last(), m);
        if k >= 0 {
            assert(s.drop_last().subrange(k, k + m.len() as int) =~= s.subrange(k, k + m.len() as int));
        }
    }
}

/// The file a minted record id is written to reads back as a record file
/// with that id as its stem, and never as a quarantined one.
pub proof fn law_a_minted_record_file_is_read_as_that_record(millis: u64, seq: u64)
    ensures
        read_stem(id_spec(millis, seq) + ".json"@) == Some(id_spec(millis, seq)),
{
    reveal_strlit("-");
    reveal_strlit(".json");
    reveal_strlit("json");
    reveal_strlit(".broken.");
    reveal_strlit(".");
    reveal_strlit("..");
    let a = dec_padded(millis as nat, 13);
    let b = dec_padded(seq as nat, 4);
    let id = id_spec(millis, seq);
    let name = id + ".json"@;
    lemma_dec_padded_digits(millis as nat, 13);
    lemma_dec_padded_digits(seq as nat, 4);
    assert(id =~= a + seq!['-'] + b);
    // The one dot in the file name is the one before "json".
    assert forall|j: int| 0 <= j < name.len() && name[j] == '.' implies j == id.len() by {
        if j < a.len() {
            assert(name[j] == a[j]);
            assert(is_digit(a[j]));
        } else if j == a.len() {
            assert(name[j] == '-');
        } else if j < id.len() {
            assert(name[j] == b[j - a.len() - 1]);
            assert(is_digit(b[j - a.len() - 1]));
        } else if j > id.len() {
            assert(name[j] == ".json"@[j - id.len()]);
        }
    }
    assert(name[id.len() as int] == '.');
    lemma_last_dot_bounds(name);
    let d = last_dot(name);
    if d < id.len() {
        assert(name[id.len() as int] != '.');
    }
    assert(d == id.len());
    assert(name.subrange(d + 1, name.len() as int) =~= "json"@);
    assert(name.subrange(0, d) =~= id);
    assert(name.len() > 2);
    assert(name != "."@ && name != ".."@) by {
        assert(name.len() != "."@.len());
        assert(name.len() != ".."@.len());
    }
    assert(record_stem_spec(name) == Some(id));
    lemma_last_occurrence_bounds(name, ".broken."@);
    let k = last_occurrence(name, ".broken."@);
    if k >= 0 {
        assert(name.subrange(k, k + 8)[0] == '.');
        assert(name.subrange(k, k + 8)[7] == '.');
        assert(name[k] == '.');
        assert(name[k + 7] == '.');
        assert(false);
    }
    assert(broken_stem_spec(name) is None);
}

/// What a write gives back on a read: a record written under a minted id,
/// in this build's schema, is one of the records `load` (or `reload`) keeps
/// from any listing that shows its file.
pub proof fn law_a_written_record_loads_back(e: Entry, r: Record, millis: u64, seq: u64)
    requires
        r.id@ == id_spec(millis, seq),
        e.name@ == r.id@ + ".json"@,
        e.read == Some(FileRead::Versioned { v: OUTBOX_SCHEMA, record: Ok::<Record, String>(r) }),
    ensures
        entry_verdict(e) == Some(Verdict::Live(r)),
        forall|es: Seq<Entry>| #[trigger] es.contains(e) ==> live_in(es).contains(r),
{
    law_a_minted_record_file_is_read_as_that_record(millis, seq);
    assert forall|es: Seq<Entry>| #[trigger] es.contains(e) implies live_in(es).contains(r) by {
        let i = choose|i: int| 0 <= i < es.len() && es[i] == e;
        assert(entry_verdict(es[i]) == Some(Verdict::Live(r)));
    }
}

} // verus!
