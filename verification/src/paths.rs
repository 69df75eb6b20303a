//! Path strings as character sequences: extracting the basename (the final
//! filename component) and the extension, with exact specifications.
use vstd::prelude::*;

verus! {

/// Does `s` contain a `/` anywhere?
pub open spec fn has_slash(s: Seq<char>) -> bool {
    exists|i: int| 0 <= i < s.len() && s[i] == '/'
}

/// The final filename component of a path: trailing separators are dropped,
/// then everything after the last remaining `/` is kept.
pub open spec fn basename_of(path: Seq<char>) -> Seq<char>
    decreases path.len(),
{
    if path.len() == 0 {
        path
    } else if path[path.len() - 1] == '/' {
        basename_of(path.subrange(0, path.len() - 1))
    } else if has_slash(path) {
        basename_of(path.subrange(1, path.len() as int))
    } else {
        path
    }
}

pub proof fn lemma_basename_no_slash(s: Seq<char>)
    requires
        !has_slash(s),
    ensures
        basename_of(s) == s,
{
    if s.len() > 0 {
        assert(s[s.len() - 1] != '/');
    }
}

pub proof fn lemma_basename_trailing(s: Seq<char>)
    requires
        s.len() > 0,
        s[s.len() - 1] == '/',
    ensures
        basename_of(s) == basename_of(s.subrange(0, s.len() - 1)),
{
}

/// When the last slash of `s` sits at `j` (and is not the final character),
/// the basename is exactly the suffix after `j`.
pub proof fn lemma_basename_after_last_slash(s: Seq<char>, j: int)
    requires
        0 <= j < s.len() - 1,
        s[j] == '/',
        forall|i: int| j < i < s.len() ==> s[i] != '/',
    ensures
        basename_of(s) == s.subrange(j + 1, s.len() as int),
    decreases j,
{
    assert(s[s.len() - 1] != '/');
    assert(has_slash(s));
    let t = s.subrange(1, s.len() as int);
    assert(basename_of(s) == basename_of(t));
    if j == 0 {
        assert(forall|i: int| 0 <= i < t.len() ==> t[i] != '/');
        lemma_basename_no_slash(t);
        assert(t =~= s.subrange(1, s.len() as int));
    } else {
        assert(t[j - 1] == '/');
        assert(forall|i: int| j - 1 < i < t.len() ==> t[i] != '/');
        lemma_basename_after_last_slash(t, j - 1);
        assert(t.subrange(j, t.len() as int) =~= s.subrange(j + 1, s.len() as int));
    }
}

/// The basename never contains a separator.
pub proof fn lemma_basename_slash_free(s: Seq<char>)
    ensures
        !has_slash(basename_of(s)),
    decreases s.len(),
{
    if s.len() == 0 {
    } else if s[s.len() - 1] == '/' {
        lemma_basename_slash_free(s.subrange(0, s.len() - 1));
    } else if has_slash(s) {
        lemma_basename_slash_free(s.subrange(1, s.len() as int));
    } else {
    }
}

/// A string without separators is its own basename.
pub proof fn lemma_basename_idempotent(s: Seq<char>)
    ensures
        basename_of(basename_of(s)) == basename_of(s),
{
    lemma_basename_slash_free(s);
    lemma_basename_no_slash(basename_of(s));
}

/// The final filename component of `path`, as `Path::file_name` reports it
/// for `/`-separated paths (an empty string where none remains).
pub fn basename(path: &str) -> (r: String)
    ensures
        r@ == basename_of(path@),
{
    let n = path.unicode_len();
    let mut end = n;
    proof {
        assert(path@.subrange(0, n as int) =~= path@);
    }
    while end > 0 && path.get_char(end - 1) == '/'
        invariant
            0 <= end <= n,
            n == path@.len(),
            basename_of(path@) == basename_of(path@.subrange(0, end as int)),
        decreases end,
    {
        proof {
            let t = path@.subrange(0, end as int);
            lemma_basename_trailing(t);
            assert(t.subrange(0, t.len() - 1) =~= path@.subrange(0, end - 1));
        }
        end = end - 1;
    }
    let mut start = end;
    while start > 0 && path.get_char(start - 1) != '/'
        invariant
            0 <= start <= end <= path@.len(),
            forall|i: int| start <= i < end ==> path@[i] != '/',
        decreases start,
    {
        start = start - 1;
    }
    let r = path.substring_char(start, end);
    proof {
        let t = path@.subrange(0, end as int);
        if end == 0 {
            assert(t =~= Seq::<char>::empty());
            assert(r@ =~= t);
        } else {
            assert(path@[end - 1] != '/');
            assert(t[t.len() - 1] != '/');
            if start == 0 {
                assert(forall|i: int| 0 <= i < t.len() ==> t[i] != '/');
                lemma_basename_no_slash(t);
                assert(r@ =~= t);
            } else {
                assert(path@[start - 1] == '/');
                assert(t[start - 1] == '/');
                assert(forall|i: int| start - 1 < i < t.len() ==> t[i] != '/');
                lemma_basename_after_last_slash(t, start - 1);
                assert(r@ =~= t.subrange(start as int, t.len() as int));
            }
        }
    }
    r.to_owned()
}

/// Appending different suffixes to one prefix yields different strings.
pub proof fn lemma_concat_neq(x: Seq<char>, s1: Seq<char>, s2: Seq<char>)
    requires
        s1 != s2,
    ensures
        x + s1 != x + s2,
{
    if x + s1 == x + s2 {
        assert(s1.len() == s2.len()) by {
            assert((x + s1).len() == (x + s2).len());
        }
        assert forall|t: int| 0 <= t < s1.len() implies s1[t] == s2[t] by {
            assert((x + s1)[x.len() + t] == s1[t]);
            assert((x + s2)[x.len() + t] == s2[t]);
        }
        assert(s1 =~= s2);
    }
}

} // verus!
