//! The name of the active Python virtual environment.
use vstd::prelude::*;

use crate::text::chars_of;

verus! {

/// `path` without the `/`s that end it, keeping a lone leading `/`.
pub open spec fn trim_trailing_slashes(path: Seq<char>) -> Seq<char>
    decreases path.len(),
{
    if path.len() > 1 && path.last() == '/' {
        trim_trailing_slashes(path.drop_last())
    } else {
        path
    }
}

/// The part of `path` after its last `/` (all of it where it has none).
pub open spec fn after_last_slash(path: Seq<char>) -> Seq<char>
    decreases path.len(),
{
    if path.len() == 0 {
        path
    } else if path.last() == '/' {
        seq![]
    } else {
        after_last_slash(path.drop_last()).push(path.last())
    }
}

/// The last component of `path`, trailing `/`s ignored: `/opt/venvs/myenv/`
/// gives `myenv`.
pub open spec fn spec_basename(path: Seq<char>) -> Seq<char> {
    after_last_slash(trim_trailing_slashes(path))
}

pub fn basename(path: &str) -> (name: &str)
    ensures
        name@ == spec_basename(path@),
{
    let chars = chars_of(path);
    let ghost s = path@;
    if chars.len() == 0 {
        return path;
    }
    let mut end = chars.len();
    assert(s.take(end as int) =~= s);
    while end > 1 && chars[end - 1] == '/'
        invariant
            chars@ == s,
            1 <= end <= chars.len(),
            trim_trailing_slashes(s) == trim_trailing_slashes(s.take(end as int)),
        decreases end,
    {
        assert(s.take(end as int).drop_last() =~= s.take(end - 1));
        end = end - 1;
    }
    let ghost trimmed = s.take(end as int);
    assert(trim_trailing_slashes(trimmed) == trimmed);
    let mut start = end;
    while start > 0 && chars[start - 1] != '/'
        invariant
            chars@ == s,
            0 <= start <= end <= chars.len(),
            trimmed == s.take(end as int),
            after_last_slash(trimmed) == after_last_slash(s.take(start as int)) + s.subrange(
                start as int,
                end as int,
            ),
        decreases start,
    {
        assert(s.take(start as int).drop_last() =~= s.take(start - 1));
        assert(s.subrange(start - 1, end as int) =~= seq![s[start - 1]] + s.subrange(
            start as int,
            end as int,
        ));
        assert(after_last_slash(s.take(start as int)) == after_last_slash(s.take(start - 1)).push(
            s[start - 1],
        ));
        start = start - 1;
    }
    if start > 0 {
        assert(s.take(start as int).last() == s[start - 1]);
    }
    assert(after_last_slash(s.take(start as int)) =~= Seq::<char>::empty());
    assert(s.subrange(start as int, end as int) =~= after_last_slash(trimmed));
    path.substring_char(start, end)
}

/// The name holds no `/`.
pub proof fn law_basename_has_no_slash(path: Seq<char>)
    ensures
        forall|i: int| 0 <= i < spec_basename(path).len() ==> spec_basename(path)[i] != '/',
{
    lemma_after_last_slash_has_none(trim_trailing_slashes(path));
}

proof fn lemma_after_last_slash_has_none(s: Seq<char>)
    ensures
        forall|i: int| 0 <= i < after_last_slash(s).len() ==> after_last_slash(s)[i] != '/',
    decreases s.len(),
{
    if s.len() > 0 && s.last() != '/' {
        lemma_after_last_slash_has_none(s.drop_last());
        let r = after_last_slash(s.drop_last());
        assert(after_last_slash(s) == r.push(s.last()));
        assert forall|i: int| 0 <= i < r.push(s.last()).len() implies r.push(s.last())[i] != '/' by {
            if i < r.len() {
                assert(r.push(s.last())[i] == r[i]);
            }
        }
    }
}

/// A `/` at the end of the path does not change the name.
pub proof fn law_basename_ignores_trailing_slash(path: Seq<char>)
    ensures
        spec_basename(path.push('/')) == spec_basename(path),
{
    let p = path.push('/');
    assert(p.drop_last() =~= path);
    if path.len() == 0 {
        assert(trim_trailing_slashes(p) == p);
    }
}

/// `trim_trailing_slashes` keeps a prefix, drops only `/`s, and ends on a
/// character other than `/` unless one character or none is left.
proof fn lemma_trim_shape(path: Seq<char>)
    ensures
        trim_trailing_slashes(path).len() <= path.len(),
        trim_trailing_slashes(path) == path.take(trim_trailing_slashes(path).len() as int),
        forall|k: int|
            trim_trailing_slashes(path).len() <= k < path.len() ==> path[k] == '/',
        trim_trailing_slashes(path).len() <= 1 || trim_trailing_slashes(path).last() != '/',
        path.len() > 0 ==> trim_trailing_slashes(path).len() > 0,
    decreases path.len(),
{
    if path.len() > 1 && path.last() == '/' {
        let q = path.drop_last();
        lemma_trim_shape(q);
        let t = trim_trailing_slashes(q);
        assert(q.take(t.len() as int) =~= path.take(t.len() as int));
        assert forall|k: int| t.len() <= k < path.len() implies path[k] == '/' by {
            if k < q.len() {
                assert(path[k] == q[k]);
            }
        }
    } else {
        assert(path.take(path.len() as int) =~= path);
    }
}

/// `after_last_slash` is a suffix without `/`, after a `/` or from the start.
proof fn lemma_after_last_slash_shape(t: Seq<char>)
    ensures
        after_last_slash(t).len() <= t.len(),
        after_last_slash(t) == t.skip(t.len() - after_last_slash(t).len()),
        forall|i: int| 0 <= i < after_last_slash(t).len() ==> after_last_slash(t)[i] != '/',
        after_last_slash(t).len() == t.len() || t[t.len() - after_last_slash(t).len() - 1]
            == '/',
    decreases t.len(),
{
    lemma_after_last_slash_has_none(t);
    if t.len() > 0 && t.last() != '/' {
        let q = t.drop_last();
        lemma_after_last_slash_shape(q);
        let r = after_last_slash(q);
        assert(after_last_slash(t) == r.push(t.last()));
        assert(t.skip(t.len() - r.len() - 1) =~= q.skip(q.len() - r.len()).push(t.last()));
        if r.len() < q.len() {
            assert(t[t.len() - r.len() - 2] == q[q.len() - r.len() - 1]);
        }
    } else if t.len() > 0 {
        assert(t.skip(t.len() as int) =~= Seq::<char>::empty());
    }
}

/// The name is the whole run of characters other than `/` that ends the
/// path once its trailing `/`s are ignored: it stands at the start of the path
/// or right after a `/`, only `/`s follow it, it holds no `/`, and it is empty
/// only where the path holds nothing but `/`s. So no character of the last
/// component, such as a `.`, is dropped.
pub proof fn law_basename_is_last_component(path: Seq<char>)
    ensures
        forall|i: int| 0 <= i < spec_basename(path).len() ==> spec_basename(path)[i] != '/',
        exists|j: int|
            0 <= j && j + spec_basename(path).len() <= path.len() && #[trigger] path.subrange(
                j,
                j + spec_basename(path).len(),
            ) == spec_basename(path) && (j == 0 || path[j - 1] == '/') && forall|k: int|
                j + spec_basename(path).len() <= k < path.len() ==> path[k] == '/',
        spec_basename(path).len() == 0 ==> forall|k: int| 0 <= k < path.len() ==> path[k] == '/',
{
    lemma_trim_shape(path);
    let t = trim_trailing_slashes(path);
    lemma_after_last_slash_shape(t);
    let n = spec_basename(path);
    let j = t.len() - n.len();
    assert(path.subrange(j, j + n.len()) =~= n) by {
        assert forall|i: int| 0 <= i < n.len() implies path.subrange(j, j + n.len())[i] == n[i] by {
            assert(n[i] == t.skip(j)[i]);
            assert(t[j + i] == path.take(t.len() as int)[j + i]);
        }
    }
    if j > 0 {
        assert(t[j - 1] == path[j - 1]);
    }
    assert(path.subrange(j, j + n.len()) == n && (j == 0 || path[j - 1] == '/') && forall|k: int|
        j + n.len() <= k < path.len() ==> path[k] == '/');
    if n.len() == 0 {
        assert forall|k: int| 0 <= k < path.len() implies path[k] == '/' by {
            if k < t.len() {
                assert(t.len() == 1);
                assert(t[0] == path[0]);
            }
        }
    }
}

} // verus!
