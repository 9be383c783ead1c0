//! The order strings sort in (code point by code point, which is the order
//! of their UTF-8 bytes), and sorted, duplicate-free lists of them.

use vstd::prelude::*;
use crate::text::chars_of;

verus! {

/// `a` sorts strictly before `b`.
pub open spec fn seq_lt(a: Seq<char>, b: Seq<char>) -> bool
    decreases a.len(),
{
    if a.len() == 0 {
        b.len() > 0
    } else if b.len() == 0 {
        false
    } else if a[0] != b[0] {
        a[0] < b[0]
    } else {
        seq_lt(a.drop_first(), b.drop_first())
    }
}

pub proof fn lemma_lt_irreflexive(a: Seq<char>)
    ensures
        !seq_lt(a, a),
    decreases a.len(),
{
    if a.len() > 0 {
        lemma_lt_irreflexive(a.drop_first());
    }
}

pub proof fn lemma_lt_asymmetric(a: Seq<char>, b: Seq<char>)
    ensures
        seq_lt(a, b) ==> !seq_lt(b, a),
    decreases a.len(),
{
    if a.len() > 0 && b.len() > 0 && a[0] == b[0] {
        lemma_lt_asymmetric(a.drop_first(), b.drop_first());
    }
}

pub proof fn lemma_lt_transitive(a: Seq<char>, b: Seq<char>, c: Seq<char>)
    ensures
        seq_lt(a, b) && seq_lt(b, c) ==> seq_lt(a, c),
    decreases a.len(),
{
    if a.len() > 0 && b.len() > 0 && c.len() > 0 {
        lemma_lt_transitive(a.drop_first(), b.drop_first(), c.drop_first());
    }
}

pub proof fn lemma_lt_total(a: Seq<char>, b: Seq<char>)
    ensures
        a != b ==> seq_lt(a, b) || seq_lt(b, a),
    decreases a.len(),
{
    if a.len() > 0 && b.len() > 0 && a[0] == b[0] {
        lemma_lt_total(a.drop_first(), b.drop_first());
        if a.drop_first() == b.drop_first() {
            assert(a =~= seq![a[0]] + a.drop_first());
            assert(b =~= seq![b[0]] + b.drop_first());
        }
    } else if a.len() == 0 && b.len() == 0 {
        assert(a =~= b);
    }
}

/// Strictly increasing, so sorted and free of duplicates.
pub open spec fn strictly_sorted(s: Seq<Seq<char>>) -> bool {
    forall|i: int, j: int| 0 <= i < j < s.len() ==> seq_lt(#[trigger] s[i], #[trigger] s[j])
}

/// The character sequences behind a list of strings.
pub open spec fn views(v: Seq<String>) -> Seq<Seq<char>> {
    v.map_values(|s: String| s@)
}

/// The three answers of comparing two strings.
pub enum Rank {
    Less,
    Equal,
    Greater,
}

/// Compare two character sequences in string order.
pub fn compare_chars(a: &Vec<char>, b: &Vec<char>) -> (r: Rank)
    ensures
        r is Less <==> seq_lt(a@, b@),
        r is Equal <==> a@ == b@,
        r is Greater <==> seq_lt(b@, a@),
{
    let mut i: usize = 0;
    proof {
        assert(a@.subrange(0, a.len() as int) =~= a@);
        assert(b@.subrange(0, b.len() as int) =~= b@);
    }
    while i < a.len() && i < b.len() && a[i] == b[i]
        invariant
            i <= a.len(),
            i <= b.len(),
            a@.subrange(0, i as int) == b@.subrange(0, i as int),
            seq_lt(a@, b@) == seq_lt(a@.subrange(i as int, a.len() as int), b@.subrange(i as int, b.len() as int)),
            seq_lt(b@, a@) == seq_lt(b@.subrange(i as int, b.len() as int), a@.subrange(i as int, a.len() as int)),
        decreases a.len() - i,
    {
        proof {
            assert(a@.subrange(i as int, a.len() as int).drop_first() =~= a@.subrange(i + 1, a.len() as int));
            assert(b@.subrange(i as int, b.len() as int).drop_first() =~= b@.subrange(i + 1, b.len() as int));
            assert(a@.subrange(0, i + 1) =~= a@.subrange(0, i as int).push(a@[i as int]));
            assert(b@.subrange(0, i + 1) =~= b@.subrange(0, i as int).push(b@[i as int]));
        }
        i += 1;
    }
    proof {
        lemma_lt_irreflexive(a@);
        lemma_lt_asymmetric(a@, b@);
        lemma_lt_total(a@, b@);
    }
    if i == a.len() && i == b.len() {
        assert(a@ =~= a@.subrange(0, i as int));
        assert(b@ =~= b@.subrange(0, i as int));
        Rank::Equal
    } else if i == a.len() {
        assert(a@ != b@) by { assert(a@.len() != b@.len()); }
        Rank::Less
    } else if i == b.len() {
        assert(a@ != b@) by { assert(a@.len() != b@.len()); }
        Rank::Greater
    } else if a[i] < b[i] {
        assert(a@ != b@) by { assert(a@[i as int] != b@[i as int]); }
        Rank::Less
    } else {
        assert(a@ != b@) by { assert(a@[i as int] != b@[i as int]); }
        Rank::Greater
    }
}

/// Compare two strings in string order.
pub fn compare_str(a: &str, b: &str) -> (r: Rank)
    ensures
        r is Less <==> seq_lt(a@, b@),
        r is Equal <==> a@ == b@,
        r is Greater <==> seq_lt(b@, a@),
{
    let x = chars_of(a);
    let y = chars_of(b);
    compare_chars(&x, &y)
}

/// Are two strings the same text?
pub fn same_text(a: &str, b: &str) -> (r: bool)
    ensures
        r == (a@ == b@),
{
    match compare_str(a, b) {
        Rank::Equal => true,
        _ => false,
    }
}

/// Insert `s` into a strictly sorted list, unless it is already there.
pub fn insert_sorted_unique(v: &mut Vec<String>, s: String)
    requires
        strictly_sorted(views(old(v)@)),
    ensures
        strictly_sorted(views(final(v)@)),
        views(final(v)@).to_set() == views(old(v)@).to_set().insert(s@),
{
    let ghost s0 = views(v@);
    let mut i: usize = 0;
    let mut stop = false;
    while i < v.len() && !stop
        invariant
            i <= v.len(),
            v@ == old(v)@,
            s0 == views(v@),
            strictly_sorted(s0),
            forall|k: int| 0 <= k < i ==> seq_lt(#[trigger] s0[k], s@),
            stop ==> i < v.len() && seq_lt(s@, s0[i as int]),
        decreases v.len() - i + (if stop { 0int } else { 1int }),
    {
        match compare_str(v[i].as_str(), s.as_str()) {
            Rank::Less => {
                i += 1;
            },
            Rank::Equal => {
                assert(views(v@).to_set() =~= views(v@).to_set().insert(s@)) by {
                    assert(views(v@)[i as int] == s@);
                }
                return;
            },
            Rank::Greater => {
                stop = true;
            },
        }
    }
    proof {
        assert forall|k: int| i <= k < s0.len() implies seq_lt(s@, #[trigger] s0[k]) by {
            if k > i {
                lemma_lt_transitive(s@, s0[i as int], s0[k]);
            }
        }
    }
    v.insert(i, s);
    proof {
        let s1 = views(v@);
        assert(s1 =~= s0.insert(i as int, s@));
        assert forall|a: int, b: int| 0 <= a < b < s1.len() implies seq_lt(#[trigger] s1[a], #[trigger] s1[b]) by {
            if b < i {
            } else if a < i && b == i {
            } else if a < i && b > i {
                assert(s1[b] == s0[b - 1]);
            } else if a == i {
                assert(s1[b] == s0[b - 1]);
            } else {
                assert(s1[a] == s0[a - 1]);
                assert(s1[b] == s0[b - 1]);
            }
        }
        assert forall|x: Seq<char>| s1.to_set().contains(x) <==> s0.to_set().insert(s@).contains(x) by {
            if s1.contains(x) {
                let k = choose|k: int| 0 <= k < s1.len() && s1[k] == x;
                if k < i {
                    assert(s0[k] == x);
                } else if k > i {
                    assert(s0[k - 1] == x);
                }
            }
            if s0.contains(x) {
                let k = choose|k: int| 0 <= k < s0.len() && s0[k] == x;
                if k < i {
                    assert(s1[k] == x);
                } else {
                    assert(s1[k + 1] == x);
                }
            }
            if x == s@ {
                assert(s1[i as int] == x);
            }
        }
        assert(s1.to_set() =~= s0.to_set().insert(s@));
    }
}

} // verus!
