//! Character classes and string building shared by every module that turns
//! hostile or machine text into something a person reads.

use vstd::prelude::*;
use vstd::std_specs::iter::IteratorSpec;
use vstd::string::StringExecFns;

verus! {

broadcast use vstd::string::group_string_axioms;

// ── Character classes ───────────────────────────────────────────────────────

/// Unicode general category Cc: C0 controls, DEL and the C1 controls.
pub open spec fn is_control(c: char) -> bool {
    (c as u32) < 0x20 || (0x7f <= (c as u32) && (c as u32) <= 0x9f)
}

/// The bidi and zero-width format characters used to spoof a name on screen.
pub open spec fn is_spoofing(c: char) -> bool {
    let v = c as u32;
    (0x200b <= v && v <= 0x200f) || (0x202a <= v && v <= 0x202e) || (0x2066 <= v && v
        <= 0x2069) || v == 0xfeff
}

/// A character that may appear in display text taken from another machine.
pub open spec fn is_clean(c: char) -> bool {
    !is_control(c) && !is_spoofing(c)
}

/// The Unicode White_Space property, which is what `str::trim` strips.
pub open spec fn is_ws(c: char) -> bool {
    let v = c as u32;
    (0x9 <= v && v <= 0xd) || v == 0x20 || v == 0x85 || v == 0xa0 || v == 0x1680 || (0x2000
        <= v && v <= 0x200a) || v == 0x2028 || v == 0x2029 || v == 0x202f || v == 0x205f || v
        == 0x3000
}

pub fn is_control_char(c: char) -> (b: bool)
    ensures
        b == is_control(c),
{
    let v = c as u32;
    v < 0x20 || (0x7f <= v && v <= 0x9f)
}

pub fn is_spoofing_char(c: char) -> (b: bool)
    ensures
        b == is_spoofing(c),
{
    let v = c as u32;
    (0x200b <= v && v <= 0x200f) || (0x202a <= v && v <= 0x202e) || (0x2066 <= v && v <= 0x2069)
        || v == 0xfeff
}

pub fn is_ws_char(c: char) -> (b: bool)
    ensures
        b == is_ws(c),
{
    let v = c as u32;
    (0x9 <= v && v <= 0xd) || v == 0x20 || v == 0x85 || v == 0xa0 || v == 0x1680 || (0x2000 <= v
        && v <= 0x200a) || v == 0x2028 || v == 0x2029 || v == 0x202f || v == 0x205f || v == 0x3000
}

/// ASCII lowercasing of one character; every other character is unchanged.
pub open spec fn ascii_lower(c: char) -> char {
    if 'A' <= c && c <= 'Z' {
        ((c as u32) + 32) as char
    } else {
        c
    }
}

// ── Sequence shapes ─────────────────────────────────────────────────────────

/// `s` with its leading whitespace removed.
pub open spec fn trim_start(s: Seq<char>) -> Seq<char>
    decreases s.len(),
{
    if s.len() > 0 && is_ws(s[0]) {
        trim_start(s.drop_first())
    } else {
        s
    }
}

/// `s` with its trailing whitespace removed.
pub open spec fn trim_end(s: Seq<char>) -> Seq<char>
    decreases s.len(),
{
    if s.len() > 0 && is_ws(s.last()) {
        trim_end(s.drop_last())
    } else {
        s
    }
}

/// `str::trim`: whitespace removed from both ends.
pub open spec fn trim(s: Seq<char>) -> Seq<char> {
    trim_end(trim_start(s))
}

/// The clean characters of `s`, in order.
pub open spec fn clean(s: Seq<char>) -> Seq<char>
    decreases s.len(),
{
    if s.len() == 0 {
        s
    } else if is_clean(s.last()) {
        clean(s.drop_last()).push(s.last())
    } else {
        clean(s.drop_last())
    }
}

/// The first `max` characters of `s`, or all of them when there are fewer.
pub open spec fn truncate(s: Seq<char>, max: nat) -> Seq<char> {
    if s.len() <= max {
        s
    } else {
        s.take(max as int)
    }
}

/// `s` starts with `p`.
pub open spec fn starts_with(s: Seq<char>, p: Seq<char>) -> bool {
    p.len() <= s.len() && s.take(p.len() as int) == p
}

/// `p` occurs somewhere inside `s`.
pub open spec fn contains_seq(s: Seq<char>, p: Seq<char>) -> bool {
    exists|i: int| 0 <= i && i + p.len() <= s.len() && #[trigger] s.subrange(i, i + p.len()) == p
}

/// `a` and `b` are equal when ASCII letters are compared without case.
pub open spec fn eq_ignore_ascii_case(a: Seq<char>, b: Seq<char>) -> bool {
    a.len() == b.len() && forall|i: int| 0 <= i < a.len() ==> ascii_lower(a[i]) == ascii_lower(
        #[trigger] b[i],
    )
}

/// The decimal digit for `d < 10`.
pub open spec fn digit(d: nat) -> char {
    ((d % 10) + 48) as char
}

/// The decimal rendering of `n`, as `{}` prints it.
pub open spec fn dec(n: nat) -> Seq<char>
    decreases n,
{
    if n < 10 {
        seq![digit(n)]
    } else {
        dec(n / 10).push(digit(n % 10))
    }
}

/// `n` rendered in decimal and left-padded with zeros to `width` characters.
pub open spec fn dec_padded(n: nat, width: nat) -> Seq<char> {
    if dec(n).len() >= width {
        dec(n)
    } else {
        Seq::new((width - dec(n).len()) as nat, |i: int| '0') + dec(n)
    }
}

// ── Lemmas ──────────────────────────────────────────────────────────────────

pub proof fn lemma_dec_nonempty(n: nat)
    ensures
        dec(n).len() >= 1,
    decreases n,
{
    if n >= 10 {
        lemma_dec_nonempty(n / 10);
    }
}

pub proof fn lemma_clean_is_clean(s: Seq<char>)
    ensures
        forall|i: int| 0 <= i < clean(s).len() ==> is_clean(#[trigger] clean(s)[i]),
        clean(s).len() <= s.len(),
    decreases s.len(),
{
    if s.len() > 0 {
        lemma_clean_is_clean(s.drop_last());
    }
}

/// Cleaning text that is already clean changes nothing.
pub proof fn lemma_clean_of_clean(s: Seq<char>)
    requires
        forall|i: int| 0 <= i < s.len() ==> is_clean(#[trigger] s[i]),
    ensures
        clean(s) == s,
    decreases s.len(),
{
    if s.len() > 0 {
        lemma_clean_of_clean(s.drop_last());
        assert(s.drop_last().push(s.last()) =~= s);
    }
}

pub proof fn lemma_trim_start_suffix(s: Seq<char>)
    ensures
        exists|k: int| 0 <= k <= s.len() && #[trigger] trim_start(s) == s.subrange(k, s.len() as int),
        trim_start(s).len() > 0 ==> !is_ws(trim_start(s)[0]),
    decreases s.len(),
{
    if s.len() > 0 && is_ws(s[0]) {
        lemma_trim_start_suffix(s.drop_first());
        let k = choose|k: int|
            0 <= k <= s.drop_first().len() && #[trigger] trim_start(s.drop_first())
                == s.drop_first().subrange(k, s.drop_first().len() as int);
        assert(s.drop_first().subrange(k, s.drop_first().len() as int) =~= s.subrange(
            k + 1,
            s.len() as int,
        ));
    } else {
        assert(s.subrange(0, s.len() as int) =~= s);
    }
}

pub proof fn lemma_trim_end_prefix(s: Seq<char>)
    ensures
        exists|k: int| 0 <= k <= s.len() && #[trigger] trim_end(s) == s.subrange(0, k),
        trim_end(s).len() > 0 ==> !is_ws(trim_end(s).last()),
    decreases s.len(),
{
    if s.len() > 0 && is_ws(s.last()) {
        lemma_trim_end_prefix(s.drop_last());
        let k = choose|k: int|
            0 <= k <= s.drop_last().len() && #[trigger] trim_end(s.drop_last())
                == s.drop_last().subrange(0, k);
        assert(s.drop_last().subrange(0, k) =~= s.subrange(0, k));
    } else {
        assert(s.subrange(0, s.len() as int) =~= s);
    }
}

/// A sequence with no whitespace at either end is its own trim.
pub proof fn lemma_trim_fixed(s: Seq<char>)
    requires
        s.len() > 0 ==> !is_ws(s[0]) && !is_ws(s.last()),
    ensures
        trim(s) == s,
{
}

/// Trimming twice is trimming once.
pub proof fn lemma_trim_idempotent(s: Seq<char>)
    ensures
        trim(trim(s)) == trim(s),
{
    let a = trim_start(s);
    lemma_trim_start_suffix(s);
    lemma_trim_end_prefix(a);
    let t = trim_end(a);
    let k = choose|k: int| 0 <= k <= a.len() && #[trigger] trim_end(a) == a.subrange(0, k);
    if t.len() > 0 {
        assert(t[0] == a[0]);
    }
    lemma_trim_fixed(t);
}

/// The characters of `t` are among the characters of `s` when `t` is one of
/// its subranges.
pub proof fn lemma_trim_chars(s: Seq<char>)
    ensures
        forall|i: int| 0 <= i < trim(s).len() ==> s.contains(#[trigger] trim(s)[i]),
        trim(s).len() <= s.len(),
{
    let a = trim_start(s);
    lemma_trim_start_suffix(s);
    lemma_trim_end_prefix(a);
    let j = choose|j: int| 0 <= j <= s.len() && #[trigger] trim_start(s) == s.subrange(j, s.len() as int);
    let k = choose|k: int| 0 <= k <= a.len() && #[trigger] trim_end(a) == a.subrange(0, k);
    assert forall|i: int| 0 <= i < trim(s).len() implies s.contains(#[trigger] trim(s)[i]) by {
        assert(trim(s)[i] == s[j + i]);
    }
}

// ── Executable helpers ──────────────────────────────────────────────────────

/// The characters of `s`, in order.
pub fn chars_of(s: &str) -> (out: Vec<char>)
    ensures
        out@ == s@,
{
    let mut out: Vec<char> = Vec::new();
    for c in iter: s.chars()
        invariant
            iter.seq() == s@,
            out@ == s@.take(iter.index() as int),
    {
        out.push(c);
    }
    out
}

/// Appends one character to a string.
#[verifier::external_body]
pub(crate) fn push_char(s: &mut String, c: char)
    ensures
        final(s)@ == old(s)@.push(c),
{
    s.push(c);
}

/// Appends `v[lo..hi]` to `s`.
pub fn push_range(s: &mut String, v: &Vec<char>, lo: usize, hi: usize)
    requires
        lo <= hi <= v.len(),
    ensures
        final(s)@ == old(s)@ + v@.subrange(lo as int, hi as int),
{
    let mut i = lo;
    while i < hi
        invariant
            lo <= i <= hi <= v.len(),
            s@ == old(s)@ + v@.subrange(lo as int, i as int),
        decreases hi - i,
    {
        push_char(s, v[i]);
        assert(v@.subrange(lo as int, i + 1) =~= v@.subrange(lo as int, i as int).push(v@[i as int]));
        i += 1;
    }
}

/// A string holding exactly the characters of `v`.
pub fn string_of(v: &Vec<char>) -> (s: String)
    ensures
        s@ == v@,
{
    let mut s = String::new();
    push_range(&mut s, v, 0, v.len());
    assert(v@.subrange(0, v.len() as int) =~= v@);
    s
}

/// An owned copy of `s`.
pub fn own(s: &str) -> (r: String)
    ensures
        r@ == s@,
{
    String::from_str(s)
}

/// Appends `t` to `s`.
pub fn append(s: &mut String, t: &str)
    ensures
        final(s)@ == old(s)@ + t@,
{
    s.append(t);
}

/// `str::trim` over characters.
pub fn trim_chars(v: &Vec<char>) -> (out: Vec<char>)
    ensures
        out@ == trim(v@),
{
    let n = v.len();
    let mut i: usize = 0;
    assert(v@.subrange(0, n as int) =~= v@);
    while i < n && is_ws_char(v[i])
        invariant
            i <= n == v.len(),
            trim_start(v@) == trim_start(v@.subrange(i as int, n as int)),
        decreases n - i,
    {
        assert(v@.subrange(i as int, n as int).drop_first() =~= v@.subrange(i + 1, n as int));
        i += 1;
    }
    let ghost a = v@.subrange(i as int, n as int);
    assert(trim_start(v@) == a);
    let mut j: usize = n;
    while j > i && is_ws_char(v[j - 1])
        invariant
            i <= j <= n == v.len(),
            a == v@.subrange(i as int, n as int),
            trim_end(a) == trim_end(v@.subrange(i as int, j as int)),
        decreases j,
    {
        assert(v@.subrange(i as int, j as int).drop_last() =~= v@.subrange(i as int, j - 1));
        j -= 1;
    }
    let mut out: Vec<char> = Vec::new();
    let mut k = i;
    while k < j
        invariant
            i <= k <= j <= n == v.len(),
            out@ == v@.subrange(i as int, k as int),
        decreases j - k,
    {
        out.push(v[k]);
        assert(v@.subrange(i as int, k + 1) =~= v@.subrange(i as int, k as int).push(v@[k as int]));
        k += 1;
    }
    out
}

/// `str::trim`, as an owned string.
pub fn trimmed(s: &str) -> (r: String)
    ensures
        r@ == trim(s@),
{
    let v = chars_of(s);
    let t = trim_chars(&v);
    string_of(&t)
}

proof fn lemma_truncate_push(x: Seq<char>, c: char, m: nat)
    ensures
        truncate(x.push(c), m) == if x.len() < m {
            truncate(x, m).push(c)
        } else {
            truncate(x, m)
        },
{
    if x.len() < m {
    } else {
        assert(x.push(c).take(m as int) =~= truncate(x, m));
    }
}

/// The clean characters of `s`, at most `max` of them.
pub fn clean_prefix(s: &str, max: usize) -> (out: Vec<char>)
    ensures
        out@ == truncate(clean(s@), max as nat),
{
    let v = chars_of(s);
    let mut out: Vec<char> = Vec::new();
    let mut i: usize = 0;
    assert(v@.take(0) =~= Seq::<char>::empty());
    while i < v.len()
        invariant
            i <= v.len(),
            v@ == s@,
            out@ == truncate(clean(v@.take(i as int)), max as nat),
        decreases v.len() - i,
    {
        let c = v[i];
        proof {
            assert(v@.take(i + 1).drop_last() =~= v@.take(i as int));
            assert(v@.take(i + 1).last() == c);
            lemma_truncate_push(clean(v@.take(i as int)), c, max as nat);
            lemma_clean_is_clean(v@.take(i as int));
        }
        if !is_control_char(c) && !is_spoofing_char(c) && out.len() < max {
            out.push(c);
        }
        i += 1;
    }
    assert(v@.take(v.len() as int) =~= v@);
    out
}

/// `s` with its control and spoofing characters removed, bounded to `max`
/// characters. The one strip set every piece of another machine's text
/// passes before a person reads it.
pub fn strip_spoofing_chars(s: &str, max: usize) -> (r: String)
    ensures
        r@ == truncate(clean(s@), max as nat),
{
    let v = clean_prefix(s, max);
    string_of(&v)
}

/// Appends the decimal rendering of `n`.
pub fn push_dec(s: &mut String, n: u64)
    ensures
        final(s)@ == old(s)@ + dec(n as nat),
    decreases n,
{
    if n >= 10 {
        push_dec(s, n / 10);
    }
    let d = (n % 10) as u8 + 48;
    let c = d as char;
    push_char(s, c);
    proof {
        assert(c == digit(n as nat));
        if n >= 10 {
            assert(old(s)@ + dec(n as nat) =~= old(s)@ + dec((n / 10) as nat) + seq![c]);
        } else {
            assert(old(s)@ + dec(n as nat) =~= old(s)@.push(c));
        }
    }
}

/// The decimal rendering of `n`.
pub fn dec_string(n: u64) -> (r: String)
    ensures
        r@ == dec(n as nat),
{
    let mut s = String::new();
    push_dec(&mut s, n);
    assert(Seq::<char>::empty() + dec(n as nat) =~= dec(n as nat));
    s
}

pub proof fn lemma_dec_long(n: nat)
    ensures
        n >= 10 ==> dec(n).len() >= 2,
        n < 10 ==> dec(n).len() == 1,
{
    if n >= 10 {
        lemma_dec_nonempty(n / 10);
    }
}

/// `10` to the `w`.
pub open spec fn pow10(w: nat) -> nat
    decreases w,
{
    if w == 0 { 1 } else { 10 * pow10((w - 1) as nat) }
}

/// The last `w` decimal digits of `n`, most significant first.
pub open spec fn digits(n: nat, w: nat) -> Seq<char>
    decreases w,
{
    if w == 0 {
        Seq::empty()
    } else {
        digits(n / 10, (w - 1) as nat).push(digit(n % 10))
    }
}

proof fn lemma_digits_len(n: nat, w: nat)
    ensures
        digits(n, w).len() == w,
    decreases w,
{
    if w > 0 {
        lemma_digits_len(n / 10, (w - 1) as nat);
    }
}

proof fn lemma_zero_digits(w: nat)
    ensures
        digits(0, w) == Seq::new(w, |i: int| '0'),
    decreases w,
{
    if w > 0 {
        lemma_zero_digits((w - 1) as nat);
        assert(digits(0, w) =~= Seq::new(w, |i: int| '0'));
    }
}

/// `dec(n)` is `n`'s digits in as many places as it prints.
proof fn lemma_dec_is_digits(n: nat)
    ensures
        dec(n) == digits(n, dec(n).len()),
        n < pow10(dec(n).len()),
        dec(n).len() >= 2 ==> n >= pow10((dec(n).len() - 1) as nat),
    decreases n,
{
    lemma_dec_nonempty(n);
    if n < 10 {
        assert(digits(n, 1) =~= seq![digit(n)]) by {
            assert(digits(n / 10, 0) =~= Seq::<char>::empty());
        }
        assert(pow10(1) == 10) by {
            assert(pow10(0) == 1);
        }
    } else {
        lemma_dec_is_digits(n / 10);
        let k = dec(n / 10).len();
        assert(dec(n).len() == k + 1);
        assert(pow10(k + 1) == 10 * pow10(k));
        if k >= 2 {
            assert(pow10(k) == 10 * pow10((k - 1) as nat));
            assert(n >= pow10(k)) by (nonlinear_arith)
                requires n / 10 >= pow10((k - 1) as nat), pow10(k) == 10 * pow10((k - 1) as nat);
        } else {
            assert(pow10(1) == 10) by {
                assert(pow10(0) == 1);
            }
        }
    }
}

/// More places add leading zeros.
proof fn lemma_digits_widen(n: nat, k: nat, w: nat)
    requires
        n < pow10(k),
        k <= w,
    ensures
        digits(n, w) == Seq::new((w - k) as nat, |i: int| '0') + digits(n, k),
    decreases w,
{
    if w == k {
        assert(Seq::new(0nat, |i: int| '0') + digits(n, k) =~= digits(n, k));
    } else if k == 0 {
        assert(n == 0);
        lemma_zero_digits(w);
        assert(digits(n, 0) =~= Seq::<char>::empty());
        assert(Seq::new(w, |i: int| '0') + Seq::<char>::empty() =~= Seq::new(w, |i: int| '0'));
    } else {
        assert(pow10(k) == 10 * pow10((k - 1) as nat));
        assert(n / 10 < pow10((k - 1) as nat)) by (nonlinear_arith)
            requires n < pow10(k), pow10(k) == 10 * pow10((k - 1) as nat);
        lemma_digits_widen(n / 10, (k - 1) as nat, (w - 1) as nat);
        lemma_digits_len(n / 10, (k - 1) as nat);
        assert(digits(n, w) =~= Seq::new((w - k) as nat, |i: int| '0') + digits(n, k));
    }
}

/// `dec_padded(n, w)` is `n`'s digits in `w` places, when it fits.
pub proof fn lemma_padded_is_digits(n: nat, w: nat)
    requires
        w >= 1,
        n < pow10(w),
    ensures
        dec_padded(n, w) == digits(n, w),
        dec_padded(n, w).len() == w,
{
    lemma_dec_is_digits(n);
    lemma_dec_nonempty(n);
    let k = dec(n).len();
    lemma_digits_len(n, w);
    if k > w {
        if w < k - 1 {
            lemma_pow10_mono(w, (k - 1) as nat);
        }
        assert(false);
    } else if k == w {
    } else {
        lemma_digits_widen(n, k, w);
        assert(dec_padded(n, w) =~= Seq::new((w - k) as nat, |i: int| '0') + dec(n));
    }
}

proof fn lemma_pow10_mono(a: nat, b: nat)
    requires
        a < b,
    ensures
        pow10(a) < pow10(b),
    decreases b,
{
    lemma_pow10_pos((b - 1) as nat);
    if a < b - 1 {
        lemma_pow10_mono(a, (b - 1) as nat);
    }
}

proof fn lemma_pow10_pos(a: nat)
    ensures
        pow10(a) >= 1,
    decreases a,
{
    if a > 0 {
        lemma_pow10_pos((a - 1) as nat);
    }
}

/// Appending one character each keeps an order between equal-length texts.
proof fn lemma_lt_push(x: Seq<char>, y: Seq<char>, c: char, d: char)
    requires
        x.len() == y.len(),
        crate::order::seq_lt(x, y) || (x == y && c < d),
    ensures
        crate::order::seq_lt(x.push(c), y.push(d)),
    decreases x.len(),
{
    if x.len() > 0 {
        assert(x.push(c).drop_first() =~= x.drop_first().push(c));
        assert(y.push(d).drop_first() =~= y.drop_first().push(d));
        if x[0] == y[0] {
            lemma_lt_push(x.drop_first(), y.drop_first(), c, d);
        }
    } else {
        assert(x =~= y);
    }
}

/// For numbers that fit `w` places, digit order is number order.
pub proof fn lemma_digits_order(a: nat, b: nat, w: nat)
    requires
        a < b < pow10(w),
    ensures
        crate::order::seq_lt(digits(a, w), digits(b, w)),
    decreases w,
{
    if w == 0 {
    } else {
        let w1 = (w - 1) as nat;
        assert(pow10(w) == 10 * pow10(w1));
        lemma_digits_len(a / 10, w1);
        lemma_digits_len(b / 10, w1);
        assert(a / 10 <= b / 10) by (nonlinear_arith)
            requires a < b;
        assert(b / 10 < pow10(w1)) by (nonlinear_arith)
            requires b < pow10(w), pow10(w) == 10 * pow10(w1);
        if a / 10 < b / 10 {
            lemma_digits_order(a / 10, b / 10, w1);
        } else {
            assert(a % 10 < b % 10) by (nonlinear_arith)
                requires a < b, a / 10 == b / 10;
        }
        lemma_lt_push(digits(a / 10, w1), digits(b / 10, w1), digit(a % 10), digit(b % 10));
    }
}

/// Equal-length heads decide the order of two texts, and equal heads leave
/// it to the tails.
pub proof fn lemma_lt_concat(x: Seq<char>, y: Seq<char>, u: Seq<char>, v: Seq<char>)
    requires
        x.len() == y.len(),
        crate::order::seq_lt(x, y) || (x == y && crate::order::seq_lt(u, v)),
    ensures
        crate::order::seq_lt(x + u, y + v),
    decreases x.len(),
{
    if x.len() == 0 {
        assert(x + u =~= u);
        assert(y + v =~= v);
    } else {
        assert((x + u).drop_first() =~= x.drop_first() + u);
        assert((y + v).drop_first() =~= y.drop_first() + v);
        assert((x + u)[0] == x[0]);
        assert((y + v)[0] == y[0]);
        if x[0] == y[0] {
            lemma_lt_concat(x.drop_first(), y.drop_first(), u, v);
        }
    }
}

/// Different numbers print differently.
pub proof fn lemma_dec_injective(a: nat, b: nat)
    requires
        dec(a) == dec(b),
    ensures
        a == b,
    decreases a,
{
    lemma_dec_long(a);
    lemma_dec_long(b);
    if a < 10 {
        assert(dec(a)[0] == digit(a));
        assert(dec(b)[0] == digit(b));
        assert(b < 10);
        assert((a % 10) + 48 == (b % 10) + 48) by {
            assert(digit(a) == digit(b));
            assert(digit(a) as int == (a % 10) + 48);
            assert(digit(b) as int == (b % 10) + 48);
        }
    } else {
        assert(b >= 10);
        assert(dec(a).drop_last() == dec(a / 10));
        assert(dec(b).drop_last() == dec(b / 10));
        lemma_dec_injective(a / 10, b / 10);
        assert(dec(a).last() == digit(a % 10));
        assert(dec(b).last() == digit(b % 10));
        assert((a % 10) % 10 + 48 == (b % 10) % 10 + 48) by {
            assert(digit(a % 10) as int == ((a % 10) % 10) + 48);
            assert(digit(b % 10) as int == ((b % 10) % 10) + 48);
        }
    }
}

pub proof fn lemma_dec_len(n: nat)
    ensures
        n < 10 ==> dec(n).len() == 1,
        10 <= n < 100 ==> dec(n).len() == 2,
        100 <= n < 1000 ==> dec(n).len() == 3,
        1000 <= n < 10000 ==> dec(n).len() == 4,
    decreases n,
{
    if n >= 10 {
        lemma_dec_len(n / 10);
    }
}

/// Appends `n` in decimal, zero-padded on the left to `width` characters.
pub fn push_dec_padded(s: &mut String, n: u64, width: usize)
    ensures
        final(s)@ == old(s)@ + dec_padded(n as nat, width as nat),
{
    let d = dec_string(n);
    let dv = chars_of(d.as_str());
    if dv.len() < width {
        let pad = width - dv.len();
        let mut k: usize = 0;
        while k < pad
            invariant
                k <= pad,
                pad == width - dv.len(),
                s@ == old(s)@ + Seq::new(k as nat, |i: int| '0'),
            decreases pad - k,
        {
            push_char(s, '0');
            assert(Seq::new((k + 1) as nat, |i: int| '0') =~= Seq::new(k as nat, |i: int| '0').push('0'));
            k += 1;
        }
        append(s, d.as_str());
        assert(old(s)@ + dec_padded(n as nat, width as nat) =~= old(s)@ + Seq::new(pad as nat, |i: int| '0') + dec(n as nat));
    } else {
        append(s, d.as_str());
    }
}

/// Does `s` start with `p`?
pub fn has_prefix(s: &Vec<char>, p: &Vec<char>) -> (b: bool)
    ensures
        b == starts_with(s@, p@),
{
    if p.len() > s.len() {
        return false;
    }
    let mut i: usize = 0;
    while i < p.len()
        invariant
            i <= p.len() <= s.len(),
            forall|k: int| 0 <= k < i ==> s@[k] == p@[k],
        decreases p.len() - i,
    {
        if s[i] != p[i] {
            assert(s@.take(p.len() as int)[i as int] != p@[i as int]);
            return false;
        }
        i += 1;
    }
    assert(s@.take(p.len() as int) =~= p@);
    true
}

/// Does `p` occur inside `s`?
pub fn has_infix(s: &Vec<char>, p: &Vec<char>) -> (b: bool)
    ensures
        b == contains_seq(s@, p@),
{
    if p.len() > s.len() {
        assert(!contains_seq(s@, p@));
        return false;
    }
    let last = s.len() - p.len();
    let mut i: usize = 0;
    while i <= last
        invariant
            last == s.len() - p.len(),
            i <= last + 1,
            forall|k: int| 0 <= k < i ==> #[trigger] s@.subrange(k, k + p.len()) != p@,
        decreases last + 1 - i,
    {
        let mut j: usize = 0;
        let mut same = true;
        while j < p.len()
            invariant
                j <= p.len(),
                i <= last,
                last == s.len() - p.len(),
                same == forall|k: int| 0 <= k < j ==> s@[i + k] == p@[k],
            decreases p.len() - j,
        {
            if s[i + j] != p[j] {
                same = false;
            }
            j += 1;
        }
        if same {
            assert(s@.subrange(i as int, i + p.len()) =~= p@);
            return true;
        }
        assert(s@.subrange(i as int, i + p.len()) != p@) by {
            let k = choose|k: int| 0 <= k < p.len() && s@[i + k] != p@[k];
            assert(s@.subrange(i as int, i + p.len())[k] != p@[k]);
        }
        i += 1;
    }
    proof { true_is_unreachable_helper(s, p, last); }
    false
}

proof fn true_is_unreachable_helper(s: &Vec<char>, p: &Vec<char>, last: usize)
    requires
        last == s.len() - p.len(),
        p.len() <= s.len(),
        forall|k: int| 0 <= k < last + 1 ==> #[trigger] s@.subrange(k, k + p.len()) != p@,
    ensures
        !contains_seq(s@, p@),
{
}

/// ASCII case-insensitive equality, as `str::eq_ignore_ascii_case`.
pub fn eq_ignore_case(a: &Vec<char>, b: &Vec<char>) -> (r: bool)
    ensures
        r == eq_ignore_ascii_case(a@, b@),
{
    if a.len() != b.len() {
        return false;
    }
    let mut i: usize = 0;
    while i < a.len()
        invariant
            i <= a.len() == b.len(),
            forall|k: int| 0 <= k < i ==> ascii_lower(a@[k]) == ascii_lower(#[trigger] b@[k]),
        decreases a.len() - i,
    {
        let x = lower_ascii_char(a[i]);
        let y = lower_ascii_char(b[i]);
        if x != y {
            return false;
        }
        i += 1;
    }
    true
}

pub fn lower_ascii_char(c: char) -> (r: char)
    ensures
        r == ascii_lower(c),
{
    if 'A' <= c && c <= 'Z' {
        ((c as u8) + 32) as char
    } else {
        c
    }
}

/// The name of what `str::to_lowercase` returns: full Unicode lowercasing.
pub uninterp spec fn lowercase_of(s: Seq<char>) -> Seq<char>;

/// `str::to_lowercase`. The result is named, not stated: Unicode's case
/// mapping tables are not a few lines.
#[verifier::external_body]
pub(crate) fn lowercase(s: &str) -> (r: String)
    ensures
        r@ == lowercase_of(s@),
{
    s.to_lowercase()
}


/// The name of what `{:?}` renders a string as: quoted, with `char::escape_debug`
/// applied to its characters.
pub uninterp spec fn debug_str(s: Seq<char>) -> Seq<char>;

/// `<str as Debug>::fmt`. Its escaping tables are named, not stated.
#[verifier::external_body]
pub(crate) fn quoted(s: &str) -> (r: String)
    ensures
        r@ == debug_str(s@),
{
    format!("{:?}", s)
}

/// `items` joined with `sep` between each two.
pub open spec fn joined(items: Seq<Seq<char>>, sep: Seq<char>) -> Seq<char>
    decreases items.len(),
{
    if items.len() == 0 {
        Seq::empty()
    } else if items.len() == 1 {
        items[0]
    } else {
        joined(items.drop_last(), sep) + sep + items.last()
    }
}

/// `[..].join(sep)`.
pub fn join_strings(items: &Vec<String>, sep: &str) -> (r: String)
    ensures
        r@ == joined(crate::order::views(items@), sep@),
{
    let mut r = String::new();
    let mut i: usize = 0;
    assert(crate::order::views(items@).take(0) =~= Seq::<Seq<char>>::empty());
    while i < items.len()
        invariant
            i <= items.len(),
            r@ == joined(crate::order::views(items@).take(i as int), sep@),
        decreases items.len() - i,
    {
        proof {
            let t = crate::order::views(items@).take(i + 1);
            assert(t.drop_last() =~= crate::order::views(items@).take(i as int));
            assert(t.last() == items@[i as int]@);
            if i == 0 {
                assert(t =~= seq![items@[0]@]);
            }
        }
        if i > 0 {
            append(&mut r, sep);
        }
        append(&mut r, items[i].as_str());
        proof {
            if i == 0 {
                assert(r@ =~= items@[0]@);
            }
        }
        i += 1;
    }
    assert(crate::order::views(items@).take(items.len() as int) =~= crate::order::views(items@));
    r
}

} // verus!
