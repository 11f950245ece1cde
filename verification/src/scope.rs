//! Directory-scope containment.
//!
//! An rc file's scope is the subtree rooted at its parent directory.  Paths
//! are canonicalized absolute paths, carried as byte strings; containment is
//! path-prefix containment on whole components, so `/a/bc` is not inside the
//! scope of `/a/b/.envrc`.

use vstd::prelude::*;

verus! {

/// The path separator byte, '/'.
pub const SLASH: u8 = 47;

/// An absolute path: nonempty and rooted at '/'.
pub open spec fn abs_path(s: Seq<u8>) -> bool {
    s.len() > 0 && s[0] == SLASH
}

/// Index of the last '/' in `s`, or -1 if `s` has none.
pub open spec fn last_slash_idx(s: Seq<u8>) -> int
    decreases s.len(),
{
    if s.len() == 0 {
        -1
    } else if s[s.len() - 1] == SLASH {
        s.len() - 1
    } else {
        last_slash_idx(s.drop_last())
    }
}

/// The last-slash index stays inside `s`, and an absolute path has one.
pub proof fn lemma_last_slash_bounds(s: Seq<u8>)
    ensures
        -1 <= last_slash_idx(s) < s.len(),
        abs_path(s) ==> last_slash_idx(s) >= 0,
    decreases s.len(),
{
    if s.len() > 0 && s[s.len() - 1] != SLASH {
        lemma_last_slash_bounds(s.drop_last());
        if abs_path(s) {
            assert(s.drop_last()[0] == s[0]);
        }
    }
}

/// The last slash of `s` lies before `j` when everything from `j` on is
/// slash-free.
pub proof fn lemma_last_slash_take(s: Seq<u8>, j: int)
    requires
        0 <= j <= s.len(),
        forall|k: int| j <= k < s.len() ==> s[k] != SLASH,
    ensures
        last_slash_idx(s.take(j)) == last_slash_idx(s),
    decreases s.len() - j,
{
    if j == s.len() {
        assert(s.take(j) =~= s);
    } else {
        lemma_last_slash_take(s, j + 1);
        assert(s.take(j + 1).drop_last() =~= s.take(j));
    }
}

/// The scope of an rc file: its parent directory, or "/" when the path has
/// no parent directory above the root.
pub open spec fn spec_parent(rc: Seq<u8>) -> Seq<u8> {
    let i = last_slash_idx(rc);
    if i <= 0 {
        seq![SLASH]
    } else {
        rc.subrange(0, i)
    }
}

/// `p` lies inside the subtree rooted at directory `scope`: it is `scope`
/// itself, or extends it at a component boundary.  A scope that ends in '/'
/// (only the root, for canonical paths) contains every path it prefixes.
pub open spec fn spec_under(scope: Seq<u8>, p: Seq<u8>) -> bool {
    ||| p == scope
    ||| (scope.len() > 0 && scope.len() < p.len() && p.subrange(0, scope.len() as int) == scope && (
    scope.last() == SLASH || p[scope.len() as int] == SLASH))
}

/// `dir` is contained in the scope of rc file `rc`, the subtree rooted at
/// `rc`'s parent directory.
pub open spec fn spec_in_scope(rc: Seq<u8>, dir: Seq<u8>) -> bool {
    spec_under(spec_parent(rc), dir)
}

/// Containment, downward: every path reached from `scope` by descending
/// through subdirectories stays under `scope`; so does `scope` itself.
pub proof fn lemma_containment_under(scope: Seq<u8>, suffix: Seq<u8>)
    requires
        scope.len() > 0,
        suffix.len() == 0 || suffix[0] == SLASH,
    ensures
        spec_under(scope, scope + suffix),
{
    if suffix.len() == 0 {
        assert(scope + suffix =~= scope);
    } else {
        assert((scope + suffix).subrange(0, scope.len() as int) =~= scope);
    }
}

/// Containment rejects sibling directories that share only a string prefix:
/// when `p` continues `scope` with more name bytes instead of a new
/// component, it is outside the scope (e.g. `/a/bc` versus scope `/a/b`).
pub proof fn lemma_containment_sibling(scope: Seq<u8>, p: Seq<u8>)
    requires
        scope.len() > 0,
        scope.last() != SLASH,
        p.len() > scope.len(),
        p.subrange(0, scope.len() as int) == scope,
        p[scope.len() as int] != SLASH,
    ensures
        !spec_under(scope, p),
{
}

/// Containment is transitive: a path under a directory that is itself under
/// `scope` is under `scope`.
pub proof fn lemma_under_trans(scope: Seq<u8>, mid: Seq<u8>, p: Seq<u8>)
    requires
        spec_under(scope, mid),
        spec_under(mid, p),
    ensures
        spec_under(scope, p),
{
    if p != mid && mid != scope {
        assert(p.subrange(0, mid.len() as int).subrange(0, scope.len() as int) =~= p.subrange(
            0,
            scope.len() as int,
        ));
        assert(p.subrange(0, mid.len() as int)[scope.len() as int] == p[scope.len() as int]);
    }
}

/// Byte-for-byte equality of two byte strings.
pub fn bytes_eq(a: &Vec<u8>, b: &Vec<u8>) -> (r: bool)
    ensures
        r == (a@ == b@),
{
    if a.len() != b.len() {
        return false;
    }
    let mut i: usize = 0;
    while i < a.len()
        invariant
            i <= a@.len(),
            a@.len() == b@.len(),
            forall|j: int| 0 <= j < i ==> a@[j] == b@[j],
        decreases a@.len() - i,
    {
        if a[i] != b[i] {
            return false;
        }
        i += 1;
    }
    proof {
        assert(a@ =~= b@);
    }
    true
}

/// The parent directory of `rc`, as a fresh byte string.
pub fn parent_dir(rc: &Vec<u8>) -> (r: Vec<u8>)
    ensures
        r@ == spec_parent(rc@),
{
    let mut j: usize = rc.len();
    while j > 0
        invariant
            j <= rc@.len(),
            forall|k: int| j <= k < rc@.len() ==> rc@[k] != SLASH,
        decreases j,
    {
        if rc[j - 1] == SLASH {
            proof {
                lemma_last_slash_take(rc@, j as int);
                assert(rc@.take(j as int)[j - 1] == SLASH);
            }
            if j == 1 {
                let mut root: Vec<u8> = Vec::new();
                root.push(SLASH);
                proof {
                    assert(root@ =~= seq![SLASH]);
                }
                return root;
            }
            let mut out: Vec<u8> = Vec::new();
            let mut i: usize = 0;
            while i < j - 1
                invariant
                    1 < j <= rc@.len(),
                    i <= j - 1,
                    rc@[j - 1] == SLASH,
                    out@ == rc@.subrange(0, i as int),
                decreases j - 1 - i,
            {
                out.push(rc[i]);
                proof {
                    assert(rc@.subrange(0, i + 1 as int) =~= rc@.subrange(0, i as int).push(
                        rc@[i as int],
                    ));
                }
                i += 1;
            }
            proof {
                assert(last_slash_idx(rc@) == j - 1);
            }
            return out;
        }
        j -= 1;
    }
    proof {
        lemma_last_slash_take(rc@, 0);
        assert(rc@.take(0) =~= Seq::<u8>::empty());
    }
    let mut root: Vec<u8> = Vec::new();
    root.push(SLASH);
    proof {
        assert(root@ =~= seq![SLASH]);
    }
    root
}

/// The conventional rc-file name, ".envrc", as bytes.
pub open spec fn rc_name() -> Seq<u8> {
    seq![46u8, 101u8, 110u8, 118u8, 114u8, 99u8]
}

/// `name` appended to directory `d` as one more path component.
pub open spec fn spec_join(d: Seq<u8>, name: Seq<u8>) -> Seq<u8> {
    if d.last() == SLASH {
        d + name
    } else {
        d + seq![SLASH] + name
    }
}

/// A canonicalized directory path: absolute, no trailing '/' (except the
/// root itself), and no empty components.
pub open spec fn canon_dir(d: Seq<u8>) -> bool {
    &&& abs_path(d)
    &&& (d.len() == 1 || d.last() != SLASH)
    &&& forall|k: int| 0 < k < d.len() ==> !(#[trigger] d[k] == SLASH && d[k - 1] == SLASH)
}

/// Appending slash-free bytes does not move the last slash.
pub proof fn lemma_last_slash_append(s: Seq<u8>, t: Seq<u8>)
    requires
        forall|k: int| 0 <= k < t.len() ==> t[k] != SLASH,
    ensures
        last_slash_idx(s + t) == last_slash_idx(s),
    decreases t.len(),
{
    if t.len() == 0 {
        assert(s + t =~= s);
    } else {
        lemma_last_slash_append(s, t.drop_last());
        assert((s + t).drop_last() =~= s + t.drop_last());
        assert((s + t).last() == t.last());
    }
}

/// The rc name contains no slash.
pub proof fn lemma_rc_name_no_slash()
    ensures
        forall|k: int| 0 <= k < rc_name().len() ==> rc_name()[k] != SLASH,
{
    assert forall|k: int| 0 <= k < rc_name().len() implies rc_name()[k] != SLASH by {
        if k == 0 {
            assert(rc_name()[0] == 46u8);
        }
    }
}

/// The parent of the rc file joined onto a canonical directory is that
/// directory again.
pub proof fn lemma_parent_join(d: Seq<u8>)
    requires
        abs_path(d),
        d.len() == 1 || d.last() != SLASH,
    ensures
        spec_parent(spec_join(d, rc_name())) == d,
{
    lemma_rc_name_no_slash();
    if d.len() == 1 {
        assert(d.last() == SLASH);
        lemma_last_slash_append(d, rc_name());
        assert(last_slash_idx(d) == 0);
        assert(d =~= seq![SLASH]);
    } else {
        let stem = d + seq![SLASH];
        lemma_last_slash_append(stem, rc_name());
        assert(spec_join(d, rc_name()) == stem + rc_name());
        assert(last_slash_idx(stem) == d.len()) by {
            assert(stem.last() == SLASH);
        }
        assert((stem + rc_name()).subrange(0, d.len() as int) =~= d);
    }
}

/// The parent of a canonical directory below the root is again a canonical
/// directory, a shorter one, and the directory is contained in it.
pub proof fn lemma_parent_canon(d: Seq<u8>)
    requires
        canon_dir(d),
        d.len() > 1,
    ensures
        canon_dir(spec_parent(d)),
        spec_parent(d).len() < d.len(),
        spec_under(spec_parent(d), d),
{
    lemma_last_slash_bounds(d);
    let i = last_slash_idx(d);
    if i <= 0 {
        assert(spec_parent(d) == seq![SLASH]);
        assert(seq![SLASH].last() == SLASH);
        assert(d.subrange(0, 1) =~= seq![SLASH]);
    } else {
        let p = d.subrange(0, i);
        assert(p[0] == d[0]);
        assert(d[i] == SLASH) by {
            lemma_last_slash_at(d);
        }
        if p.len() > 1 && p.last() == SLASH {
            assert(d[i - 1] == SLASH && d[i] == SLASH);
            assert(false);
        }
    }
}

/// The last-slash index points at a slash when one exists.
pub proof fn lemma_last_slash_at(s: Seq<u8>)
    ensures
        last_slash_idx(s) >= 0 ==> s[last_slash_idx(s)] == SLASH,
    decreases s.len(),
{
    if s.len() > 0 && s[s.len() - 1] != SLASH {
        lemma_last_slash_at(s.drop_last());
        lemma_last_slash_bounds(s.drop_last());
        if last_slash_idx(s) >= 0 {
            assert(s.drop_last()[last_slash_idx(s)] == s[last_slash_idx(s)]);
        }
    }
}

/// Where the rc file may stand: walking upward from `d` (inclusive), the
/// first directory whose conventional rc path appears in `existing`.
pub open spec fn spec_find_envrc(d: Seq<u8>, existing: Seq<Seq<u8>>) -> Option<Seq<u8>>
    decreases d.len(),
    via spec_find_envrc_decreases
{
    let rc = spec_join(d, rc_name());
    if existing.contains(rc) {
        Some(rc)
    } else if d.len() <= 1 {
        None
    } else {
        spec_find_envrc(spec_parent(d), existing)
    }
}

#[via_fn]
proof fn spec_find_envrc_decreases(d: Seq<u8>, existing: Seq<Seq<u8>>) {
    if !existing.contains(spec_join(d, rc_name())) && d.len() > 1 {
        lemma_last_slash_bounds(d);
    }
}

/// A located rc file's scope always contains the directory the search
/// started from.
pub proof fn lemma_located_in_scope(d: Seq<u8>, existing: Seq<Seq<u8>>)
    requires
        canon_dir(d),
    ensures
        spec_find_envrc(d, existing) matches Some(rc) ==> spec_in_scope(rc, d),
    decreases d.len(),
{
    let rc = spec_join(d, rc_name());
    if existing.contains(rc) {
        lemma_parent_join(d);
    } else if d.len() > 1 {
        lemma_parent_canon(d);
        lemma_located_in_scope(spec_parent(d), existing);
        let found = spec_find_envrc(spec_parent(d), existing);
        if found is Some {
            lemma_under_trans(spec_parent(found.unwrap()), spec_parent(d), d);
        }
    }
}

/// A slash at `k` bounds the last-slash index from below.
pub proof fn lemma_last_slash_lb(s: Seq<u8>, k: int)
    requires
        0 <= k < s.len(),
        s[k] == SLASH,
    ensures
        last_slash_idx(s) >= k,
    decreases s.len(),
{
    if s[s.len() - 1] != SLASH {
        lemma_last_slash_lb(s.drop_last(), k);
    }
}

/// `scope` is an ancestor of directory `p` (or `p` itself): walking upward
/// through parent directories from `p` reaches `scope`.
pub open spec fn spec_ancestor(scope: Seq<u8>, p: Seq<u8>) -> bool
    decreases p.len(),
    via spec_ancestor_decreases
{
    if p == scope {
        true
    } else if p.len() <= 1 {
        false
    } else {
        spec_ancestor(scope, spec_parent(p))
    }
}

#[via_fn]
proof fn spec_ancestor_decreases(scope: Seq<u8>, p: Seq<u8>) {
    if p != scope && p.len() > 1 {
        lemma_last_slash_bounds(p);
    }
}

/// Containment, component for component: a canonical directory lies under a
/// canonical scope exactly when walking upward through parent directories
/// from it reaches the scope.  The byte-prefix test and the
/// directory-walking view of a scope agree.
pub proof fn lemma_under_is_ancestor(scope: Seq<u8>, p: Seq<u8>)
    requires
        canon_dir(scope),
        canon_dir(p),
    ensures
        spec_under(scope, p) == spec_ancestor(scope, p),
    decreases p.len(),
{
    if p == scope {
    } else if p.len() <= 1 {
        // p is the root, which is nothing's proper descendant
        assert(p =~= seq![SLASH]);
        if spec_under(scope, p) {
            assert(false);
        }
    } else {
        lemma_parent_canon(p);
        lemma_under_is_ancestor(scope, spec_parent(p));
        let i = last_slash_idx(p);
        lemma_last_slash_bounds(p);
        lemma_last_slash_at(p);
        if spec_under(scope, p) {
            // scope is a proper bounded prefix; p's parent keeps it
            if scope.len() == 1 {
                // the root scope contains every canonical directory
                assert(scope =~= seq![SLASH]);
                assert(spec_parent(p).subrange(0, 1) =~= seq![SLASH]);
                assert(spec_under(scope, spec_parent(p)));
            } else {
                assert(p[scope.len() as int] == SLASH);
                lemma_last_slash_lb(p, scope.len() as int);
                if i == scope.len() {
                    assert(p.subrange(0, i) == scope);
                } else {
                    assert(spec_parent(p) == p.subrange(0, i));
                    assert(p.subrange(0, i).subrange(0, scope.len() as int) =~= p.subrange(
                        0,
                        scope.len() as int,
                    ));
                    assert(spec_under(scope, spec_parent(p)));
                }
            }
        }
        if spec_ancestor(scope, p) {
            // p sits under its own parent, which sits under scope
            lemma_under_trans(scope, spec_parent(p), p);
        }
    }
}

/// The views of a list of byte-string paths.
pub open spec fn paths_view(v: Seq<Vec<u8>>) -> Seq<Seq<u8>> {
    v.map_values(|p: Vec<u8>| p@)
}

/// A fresh copy of a byte string.
pub fn copy_bytes(src: &Vec<u8>) -> (r: Vec<u8>)
    ensures
        r@ == src@,
{
    let mut out: Vec<u8> = Vec::new();
    let mut i: usize = 0;
    while i < src.len()
        invariant
            i <= src@.len(),
            out@ == src@.subrange(0, i as int),
        decreases src@.len() - i,
    {
        out.push(src[i]);
        proof {
            assert(src@.subrange(0, i + 1 as int) =~= src@.subrange(0, i as int).push(
                src@[i as int],
            ));
        }
        i += 1;
    }
    proof {
        assert(out@ =~= src@);
    }
    out
}

/// Whether `p` occurs in `list`.
pub fn contains_path(list: &Vec<Vec<u8>>, p: &Vec<u8>) -> (r: bool)
    ensures
        r == paths_view(list@).contains(p@),
{
    let mut i: usize = 0;
    while i < list.len()
        invariant
            i <= list@.len(),
            forall|j: int| 0 <= j < i ==> list@[j]@ != p@,
        decreases list@.len() - i,
    {
        if bytes_eq(&list[i], p) {
            proof {
                assert(paths_view(list@)[i as int] == p@);
            }
            return true;
        }
        i += 1;
    }
    proof {
        assert(forall|j: int| 0 <= j < list@.len() ==> paths_view(list@)[j] != p@);
    }
    false
}

/// `dir` is contained in the scope of rc file `rc`.
pub fn in_scope(rc: &Vec<u8>, dir: &Vec<u8>) -> (r: bool)
    ensures
        r == spec_in_scope(rc@, dir@),
{
    let scope = parent_dir(rc);
    proof {
        lemma_last_slash_bounds(rc@);
        assert(scope@.len() > 0);
    }
    if bytes_eq(&scope, dir) {
        return true;
    }
    if scope.len() >= dir.len() {
        return false;
    }
    let mut i: usize = 0;
    while i < scope.len()
        invariant
            i <= scope@.len(),
            scope@.len() < dir@.len(),
            scope@ == spec_parent(rc@),
            dir@ != scope@,
            forall|j: int| 0 <= j < i ==> scope@[j] == dir@[j],
        decreases scope@.len() - i,
    {
        if scope[i] != dir[i] {
            proof {
                assert(dir@.subrange(0, scope@.len() as int)[i as int] != scope@[i as int]);
            }
            return false;
        }
        i += 1;
    }
    proof {
        assert(dir@.subrange(0, scope@.len() as int) =~= scope@);
    }
    if scope[scope.len() - 1] == SLASH {
        return true;
    }
    dir[scope.len()] == SLASH
}

/// The conventional rc path inside directory `dir`.
pub fn rc_candidate(dir: &Vec<u8>) -> (r: Vec<u8>)
    requires
        dir@.len() > 0,
    ensures
        r@ == spec_join(dir@, rc_name()),
{
    let mut out = copy_bytes(dir);
    if dir[dir.len() - 1] != SLASH {
        out.push(SLASH);
    }
    out.push(46);
    out.push(101);
    out.push(110);
    out.push(118);
    out.push(114);
    out.push(99);
    proof {
        assert(out@ =~= spec_join(dir@, rc_name()));
    }
    out
}

/// The nearest enclosing rc file: starting at directory `start` and walking
/// upward, the first rc path that occurs in `existing` (the candidate paths
/// that exist on disk, as observed by the caller).
pub fn find_envrc(start: &Vec<u8>, existing: &Vec<Vec<u8>>) -> (r: Option<Vec<u8>>)
    requires
        abs_path(start@),
    ensures
        match r {
            Some(rc) => spec_find_envrc(start@, paths_view(existing@)) == Some(rc@),
            None => spec_find_envrc(start@, paths_view(existing@)) is None,
        },
{
    let mut d = copy_bytes(start);
    loop
        invariant
            abs_path(d@),
            spec_find_envrc(start@, paths_view(existing@)) == spec_find_envrc(
                d@,
                paths_view(existing@),
            ),
        decreases d@.len(),
    {
        let rc = rc_candidate(&d);
        if contains_path(existing, &rc) {
            return Some(rc);
        }
        if d.len() <= 1 {
            return None;
        }
        proof {
            lemma_last_slash_bounds(d@);
        }
        d = parent_dir(&d);
    }
}

} // verus!
