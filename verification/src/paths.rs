//! Where the remote subsystem keeps its files. The crate hardcodes no
//! absolute directory: every path below derives from the one base the
//! consumer passes, so a second consumer cannot land bytes in the first
//! one's tree by accident.
//!
//! Paths are text here, joined the way `Path::join` joins them on Unix.

use vstd::prelude::*;
use crate::text::{append, chars_of, own, push_char, push_range};

verus! {

/// `Path::join` on Unix: an absolute `p` replaces the base; otherwise one
/// separator goes between them unless the base is empty or already ends in
/// one.
pub open spec fn join(base: Seq<char>, p: Seq<char>) -> Seq<char> {
    if p.len() > 0 && p[0] == '/' {
        p
    } else if base.len() == 0 || base.last() == '/' {
        base + p
    } else {
        base + seq!['/'] + p
    }
}

pub fn join_path(base: &str, p: &str) -> (r: String)
    ensures
        r@ == join(base@, p@),
{
    let pv = chars_of(p);
    if pv.len() > 0 && pv[0] == '/' {
        return own(p);
    }
    let bv = chars_of(base);
    let mut r = own(base);
    if bv.len() > 0 && bv[bv.len() - 1] == '/' {
    } else if bv.len() > 0 {
        push_char(&mut r, '/');
    }
    append(&mut r, p);
    r
}

/// The base-directory seam: one state directory in, every derived path out.
#[derive(Debug)]
pub struct Dirs {
    base: String,
}

impl Dirs {
    pub closed spec fn base_view(&self) -> Seq<char> {
        self.base@
    }

    /// `base` is the consumer's state directory: the app's support
    /// directory, a test's tempdir, or whatever a headless host owns.
    pub fn new(base: &str) -> (d: Dirs)
        ensures
            d.base_view() == base@,
    {
        Dirs { base: own(base) }
    }

    pub fn base(&self) -> (r: &str)
        ensures
            r@ == self.base_view(),
    {
        self.base.as_str()
    }

    /// `<base>/remote/`: identity key, peer store, blob store.
    pub fn remote(&self) -> (r: String)
        ensures
            r@ == join(self.base_view(), "remote"@),
    {
        join_path(self.base.as_str(), "remote")
    }

    /// `<base>/remote/blobs/`: the content-addressed store.
    pub fn blobs(&self) -> (r: String)
        ensures
            r@ == join(join(self.base_view(), "remote"@), "blobs"@),
    {
        let remote = self.remote();
        join_path(remote.as_str(), "blobs")
    }

    /// `<base>/remote/blobs.lock`: the file whose exclusive lock says who
    /// owns the blob store. A sibling of the store, not a child, so resetting
    /// the store cannot take the claim with it.
    pub fn blobs_lock(&self) -> (r: String)
        ensures
            r@ == join(join(self.base_view(), "remote"@), "blobs.lock"@),
    {
        let remote = self.remote();
        join_path(remote.as_str(), "blobs.lock")
    }

    /// `<base>/remote/cache/`: artifacts fetched from a scoped peer.
    pub fn cache(&self) -> (r: String)
        ensures
            r@ == join(join(self.base_view(), "remote"@), "cache"@),
    {
        let remote = self.remote();
        join_path(remote.as_str(), "cache")
    }

    /// `<base>/received/`: landed beams and pushes, inside the consumer's own
    /// state directory and never in the user's tree.
    pub fn received(&self) -> (r: String)
        ensures
            r@ == join(self.base_view(), "received"@),
    {
        join_path(self.base.as_str(), "received")
    }

    /// `<base>/remote/outbox/`: one file per accepted-but-undelivered send.
    pub fn outbox(&self) -> (r: String)
        ensures
            r@ == join(join(self.base_view(), "remote"@), "outbox"@),
    {
        let remote = self.remote();
        join_path(remote.as_str(), "outbox")
    }
}

/// Two consumers with different bases never share a directory derived from
/// them: joining the same relative name keeps each base as a prefix, with the
/// separator marking where it ends.
pub proof fn law_distinct_bases_distinct_dirs(a: Seq<char>, b: Seq<char>, name: Seq<char>)
    requires
        a != b,
        a.len() > 0,
        b.len() > 0,
        a.last() != '/',
        b.last() != '/',
        !(name.len() > 0 && name[0] == '/'),
    ensures
        join(a, name) != join(b, name),
{
    let ja = join(a, name);
    let jb = join(b, name);
    assert(ja == a + seq!['/'] + name);
    assert(jb == b + seq!['/'] + name);
    assert(ja.len() == a.len() + 1 + name.len());
    assert(jb.len() == b.len() + 1 + name.len());
    if ja == jb {
        assert(a.len() == b.len());
        assert(a =~= b) by {
            assert forall|i: int| 0 <= i < a.len() implies a[i] == b[i] by {
                assert(ja[i] == jb[i]);
            }
        }
    }
}

// ── The last component of a path ────────────────────────────────────────────

/// `s` without its trailing separators.
pub open spec fn strip_slashes(s: Seq<char>) -> Seq<char>
    decreases s.len(),
{
    if s.len() > 0 && s.last() == '/' {
        strip_slashes(s.drop_last())
    } else {
        s
    }
}

/// Where the last component of `t` starts: just past its last separator.
pub open spec fn last_sep_end(t: Seq<char>) -> int
    decreases t.len(),
{
    if t.len() == 0 {
        0
    } else if t.last() == '/' {
        t.len() as int
    } else {
        last_sep_end(t.drop_last())
    }
}

/// `Path::file_name`: the last normal component, with `.` components
/// skipped; none for a root, an empty path, or a path ending in `..`.
pub open spec fn file_name(s: Seq<char>) -> Option<Seq<char>>
    decreases s.len(),
{
    let t = strip_slashes(s);
    if t.len() == 0 {
        None
    } else {
        let k = last_sep_end(t);
        let comp = t.subrange(k, t.len() as int);
        if comp == seq!['.'] {
            if 0 <= k <= t.len() && k < s.len() {
                file_name(t.subrange(0, k))
            } else {
                None
            }
        } else if comp == seq!['.', '.'] {
            None
        } else {
            Some(comp)
        }
    }
}

proof fn lemma_strip_slashes_prefix(s: Seq<char>)
    ensures
        strip_slashes(s).len() <= s.len(),
        strip_slashes(s) == s.subrange(0, strip_slashes(s).len() as int),
        strip_slashes(s).len() > 0 ==> strip_slashes(s).last() != '/',
    decreases s.len(),
{
    if s.len() > 0 && s.last() == '/' {
        lemma_strip_slashes_prefix(s.drop_last());
        assert(s.drop_last().subrange(0, strip_slashes(s).len() as int) =~= s.subrange(
            0,
            strip_slashes(s).len() as int,
        ));
    } else {
        assert(s.subrange(0, s.len() as int) =~= s);
    }
}

proof fn lemma_last_sep_end_bounds(t: Seq<char>)
    ensures
        0 <= last_sep_end(t) <= t.len(),
        last_sep_end(t) > 0 ==> t[last_sep_end(t) - 1] == '/',
        forall|i: int| last_sep_end(t) <= i < t.len() ==> t[i] != '/',
    decreases t.len(),
{
    if t.len() > 0 && t.last() != '/' {
        lemma_last_sep_end_bounds(t.drop_last());
        assert forall|i: int| last_sep_end(t) <= i < t.len() implies t[i] != '/' by {
            if i < t.len() - 1 {
                assert(t[i] == t.drop_last()[i]);
            }
        }
    }
}

/// The last component of a path, as owned text. `None` for a root or a path
/// ending in `..`, so each caller keeps its own fallback.
pub fn base_name(path: &str) -> (r: Option<String>)
    ensures
        match r {
            Some(n) => file_name(path@) == Some(n@),
            None => file_name(path@) is None,
        },
{
    let v = chars_of(path);
    let mut end: usize = v.len();
    assert(v@.subrange(0, end as int) =~= path@);
    loop
        invariant
            end <= v.len(),
            v@ == path@,
            file_name(path@) == file_name(v@.subrange(0, end as int)),
        decreases end,
    {
        let ghost s = v@.subrange(0, end as int);
        proof {
            lemma_strip_slashes_prefix(s);
        }
        let mut t: usize = end;
        while t > 0 && v[t - 1] == '/'
            invariant
                t <= end <= v.len(),
                strip_slashes(s) == strip_slashes(v@.subrange(0, t as int)),
            decreases t,
        {
            assert(v@.subrange(0, t as int).drop_last() =~= v@.subrange(0, t - 1));
            t -= 1;
        }
        let ghost ts = v@.subrange(0, t as int);
        proof {
            lemma_strip_slashes_prefix(v@.subrange(0, t as int));
            lemma_last_sep_end_bounds(ts);
        }
        assert(strip_slashes(ts) == ts) by {
            if t > 0 {
                assert(ts.last() != '/');
            }
        }
        if t == 0 {
            return None;
        }
        let mut k: usize = t;
        while k > 0 && v[k - 1] != '/'
            invariant
                k <= t <= v.len(),
                last_sep_end(ts) == last_sep_end(v@.subrange(0, k as int)),
            decreases k,
        {
            assert(v@.subrange(0, k as int).drop_last() =~= v@.subrange(0, k - 1));
            k -= 1;
        }
        assert(last_sep_end(v@.subrange(0, k as int)) == k as int) by {
            if k > 0 {
                assert(v@.subrange(0, k as int).last() == '/');
            }
        }
        let ghost comp = ts.subrange(k as int, t as int);
        assert(comp =~= v@.subrange(k as int, t as int));
        if t - k == 1 && v[k] == '.' {
            assert(comp =~= seq!['.']);
            assert(ts.subrange(0, k as int) =~= v@.subrange(0, k as int));
            end = k;
        } else if t - k == 2 && v[k] == '.' && v[k + 1] == '.' {
            assert(comp =~= seq!['.', '.']);
            return None;
        } else {
            assert(comp != seq!['.']) by {
                if comp.len() == 1 {
                    assert(comp[0] == v[k as int]);
                }
            }
            assert(comp != seq!['.', '.']) by {
                if comp.len() == 2 {
                    assert(comp[0] == v[k as int]);
                    assert(comp[1] == v[k + 1]);
                }
            }
            let mut out = String::new();
            push_range(&mut out, &v, k, t);
            assert(Seq::<char>::empty() + v@.subrange(k as int, t as int) =~= comp);
            return Some(out);
        }
    }
}


/// Directory names a listing leaves out, the same policy as the local
/// quick-open walker.
pub open spec fn default_ignored(name: Seq<char>) -> bool {
    name == ".git"@ || name == "node_modules"@ || name == "target"@ || name == "dist"@
        || name == "build"@ || name == ".next"@ || name == ".venv"@
}

pub fn is_default_ignored(name: &str) -> (b: bool)
    ensures
        b == default_ignored(name@),
{
    crate::order::same_text(name, ".git") || crate::order::same_text(name, "node_modules")
        || crate::order::same_text(name, "target") || crate::order::same_text(name, "dist")
        || crate::order::same_text(name, "build") || crate::order::same_text(name, ".next")
        || crate::order::same_text(name, ".venv")
}


/// `path` is `root` or lies below it, component by component: `/w/ab` is
/// not under `/w/a`. Both are canonical, so no `..` or `.` is left to
/// climb out with.
pub open spec fn under_root(path: Seq<char>, root: Seq<char>) -> bool {
    path == root || (root.len() > 0 && root.last() == '/' && path.len() > root.len() && path.take(root.len() as int) == root)
        || (path.len() > root.len() && path.take(root.len() as int) == root && path[root.len() as int] == '/')
}

/// Is a canonical path inside one of the canonical roots? An empty root set
/// admits nothing.
pub open spec fn within_roots_spec(path: Seq<char>, roots: Seq<Seq<char>>) -> bool {
    exists|i: int| 0 <= i < roots.len() && under_root(path, #[trigger] roots[i])
}

/// A root holds itself and every path below it, at any depth, and nothing
/// else: not a sibling that only shares its spelling (`/w/ab` is not under
/// `/w/a`), and not a path that does not start with it. An empty root set
/// admits nothing, and a set admits what one of its roots admits.
pub proof fn law_a_root_holds_its_descendants(r: Seq<char>, s: Seq<char>, p: Seq<char>, roots: Seq<Seq<char>>)
    requires
        r.len() > 0,
    ensures
        within_roots_spec(r, seq![r]),
        r.last() != '/' && s.len() > 0 ==> within_roots_spec(r + seq!['/'] + s, seq![r]),
        r.last() == '/' && s.len() > 0 ==> within_roots_spec(r + s, seq![r]),
        r.last() != '/' && s.len() > 0 && s[0] != '/' ==> !within_roots_spec(r + s, seq![r]),
        (p.len() < r.len() || p.take(r.len() as int) != r) ==> !within_roots_spec(p, seq![r]),
        !within_roots_spec(p, Seq::empty()),
        within_roots_spec(p, roots) <==> exists|i: int| 0 <= i < roots.len() && within_roots_spec(p, seq![#[trigger] roots[i]]),
{
    let one = seq![r];
    assert(one[0] == r);
    assert(under_root(r, r));
    if r.last() != '/' && s.len() > 0 {
        let q = r + seq!['/'] + s;
        assert(q.take(r.len() as int) =~= r);
        assert(q[r.len() as int] == '/');
        assert(under_root(q, one[0]));
    }
    if r.last() == '/' && s.len() > 0 {
        let q = r + s;
        assert(q.take(r.len() as int) =~= r);
        assert(under_root(q, one[0]));
    }
    if r.last() != '/' && s.len() > 0 && s[0] != '/' {
        let q = r + s;
        assert(q[r.len() as int] == s[0]);
        assert(q != r) by {
            assert(q.len() != r.len());
        }
        assert(!under_root(q, one[0]));
    }
    if p.len() < r.len() || p.take(r.len() as int) != r {
        assert(p != r) by {
            if p == r {
                assert(p.take(r.len() as int) =~= r);
            }
        }
        assert(!under_root(p, one[0]));
    }
    assert forall|i: int| 0 <= i < roots.len() implies (#[trigger] within_roots_spec(p, seq![roots[i]])
        <==> under_root(p, roots[i])) by {
        assert(seq![roots[i]][0] == roots[i]);
    }
}

fn is_under_root(path: &Vec<char>, root: &Vec<char>) -> (b: bool)
    ensures
        b == under_root(path@, root@),
{
    if crate::text::has_prefix(path, root) {
        if path.len() == root.len() {
            assert(path@ =~= root@) by {
                assert(path@.take(root.len() as int) == root@);
            }
            return true;
        }
        if root.len() > 0 && root[root.len() - 1] == '/' {
            return true;
        }
        if path[root.len()] == '/' {
            return true;
        }
        false
    } else {
        assert(path@ != root@) by {
            if path@ == root@ {
                assert(path@.take(root.len() as int) =~= root@);
            }
        }
        false
    }
}

pub fn within_roots(path: &str, roots: &Vec<String>) -> (b: bool)
    ensures
        b == within_roots_spec(path@, crate::order::views(roots@)),
{
    let p = chars_of(path);
    let mut i: usize = 0;
    while i < roots.len()
        invariant
            i <= roots.len(),
            p@ == path@,
            forall|j: int| 0 <= j < i ==> !under_root(path@, #[trigger] crate::order::views(roots@)[j]),
        decreases roots.len() - i,
    {
        let r = chars_of(roots[i].as_str());
        if is_under_root(&p, &r) {
            assert(under_root(path@, crate::order::views(roots@)[i as int]));
            return true;
        }
        i += 1;
    }
    false
}

} // verus!
