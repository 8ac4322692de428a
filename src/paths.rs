//! Slash-separated virtual paths: how they split into components, how two of
//! them join, and glob matching against them.

use vstd::prelude::*;

verus! {

/// The components of `s` followed by `cur`, where `cur` is the part of a
/// component already read to the right of `s`.
pub open spec fn segments_with(s: Seq<char>, cur: Seq<char>) -> Seq<Seq<char>>
    decreases s.len(),
{
    if s.len() == 0 {
        if cur.len() > 0 {
            seq![cur]
        } else {
            Seq::empty()
        }
    } else if s.last() == '/' {
        let before = segments_with(s.drop_last(), Seq::empty());
        if cur.len() > 0 {
            before.push(cur)
        } else {
            before
        }
    } else {
        segments_with(s.drop_last(), seq![s.last()] + cur)
    }
}

/// The components of a path: the pieces between `/` separators, with empty
/// pieces (from leading, trailing or repeated separators) left out.
pub open spec fn segments(s: Seq<char>) -> Seq<Seq<char>> {
    segments_with(s, Seq::empty())
}

/// `base` joined with `name`: a `/` is put between them unless `base` is empty
/// or already ends in one, and a leading `/` of `name` is dropped.
pub open spec fn joined(base: Seq<char>, name: Seq<char>) -> Seq<char> {
    let tail = if name.len() > 0 && name[0] == '/' {
        name.drop_first()
    } else {
        name
    };
    if base.len() == 0 || base.last() == '/' {
        base + tail
    } else {
        base + seq!['/'] + tail
    }
}

/// The path that components `cs` make when joined one after the other.
pub open spec fn join_all(cs: Seq<Seq<char>>) -> Seq<char>
    decreases cs.len(),
{
    if cs.len() == 0 {
        Seq::empty()
    } else {
        joined(join_all(cs.drop_last()), cs.last())
    }
}

/// A name that can stand as one path component: not empty, without a
/// separator, and neither `.` nor `..`.
pub open spec fn is_component(k: Seq<char>) -> bool {
    &&& k.len() > 0
    &&& !k.contains('/')
    &&& k != seq!['.']
    &&& k != seq!['.', '.']
}

/// Whether `s` can stand as one path component.
pub fn is_path_component(s: &str) -> (r: bool)
    ensures
        r == is_component(s@),
{
    let n = s.unicode_len();
    if n == 0 {
        return false;
    }
    let mut i: usize = 0;
    while i < n
        invariant
            n == s@.len(),
            i <= n,
            forall|j: int| 0 <= j < i ==> s@[j] != '/',
        decreases n - i,
    {
        if s.get_char(i) == '/' {
            assert(s@.contains('/'));
            return false;
        }
        i = i + 1;
    }
    assert(!s@.contains('/'));
    if n == 1 && s.get_char(0) == '.' {
        assert(s@ =~= seq!['.']);
        return false;
    }
    if n == 2 && s.get_char(0) == '.' && s.get_char(1) == '.' {
        assert(s@ =~= seq!['.', '.']);
        return false;
    }
    assert(s@ != seq!['.']) by {
        if n == 1 {
            assert(s@[0] != seq!['.'][0]);
        }
    }
    assert(s@ != seq!['.', '.']) by {
        if n == 2 {
            assert(s@[0] != '.' || s@[1] != '.');
        }
    }
    true
}

/// Characters without a separator, read from the right, simply extend the
/// component being read.
proof fn lemma_segments_with_plain_tail(y: Seq<char>, k: Seq<char>, cur: Seq<char>)
    requires
        !k.contains('/'),
    ensures
        segments_with(y + k, cur) == segments_with(y, k + cur),
    decreases k.len(),
{
    if k.len() == 0 {
        assert(y + k =~= y);
        assert(k + cur =~= cur);
    } else {
        let yk = y + k;
        assert(yk.last() == k.last());
        assert(yk.drop_last() =~= y + k.drop_last());
        assert(!k.drop_last().contains('/')) by {
            if k.drop_last().contains('/') {
                let j = choose|j: int| 0 <= j < k.drop_last().len() && k.drop_last()[j] == '/';
                assert(k[j] == '/');
            }
        }
        assert(k.last() != '/') by {
            assert(k[k.len() - 1] == k.last());
        }
        lemma_segments_with_plain_tail(y, k.drop_last(), seq![k.last()] + cur);
        assert(k.drop_last() + (seq![k.last()] + cur) =~= k + cur);
    }
}

/// A path joined from components is empty exactly when there are none, and
/// otherwise does not end in a separator.
proof fn lemma_join_all_shape(cs: Seq<Seq<char>>)
    requires
        forall|i: int| 0 <= i < cs.len() ==> is_component(#[trigger] cs[i]),
    ensures
        cs.len() == 0 <==> join_all(cs).len() == 0,
        cs.len() > 0 ==> join_all(cs).last() != '/',
    decreases cs.len(),
{
    if cs.len() > 0 {
        let k = cs.last();
        assert(is_component(cs[cs.len() - 1]));
        assert(k.len() > 0 && !k.contains('/'));
        assert(k.last() != '/') by {
            assert(k[k.len() - 1] == k.last());
        }
        assert(k[0] != '/');
        let rest = cs.drop_last();
        assert forall|i: int| 0 <= i < rest.len() implies is_component(#[trigger] rest[i]) by {
            assert(rest[i] == cs[i]);
        }
        lemma_join_all_shape(rest);
        let base = join_all(rest);
        if base.len() == 0 {
            assert(join_all(cs) =~= base + k);
        } else {
            assert(join_all(cs) =~= base + seq!['/'] + k);
        }
        assert(join_all(cs).last() == k.last());
    }
}

/// Splitting a path joined from components gives those components back.
pub proof fn lemma_segments_of_join_all(cs: Seq<Seq<char>>)
    requires
        forall|i: int| 0 <= i < cs.len() ==> is_component(#[trigger] cs[i]),
    ensures
        segments(join_all(cs)) == cs,
    decreases cs.len(),
{
    if cs.len() == 0 {
        assert(segments(join_all(cs)) =~= cs);
    } else {
        let k = cs.last();
        assert(is_component(cs[cs.len() - 1]));
        assert(k[0] != '/');
        let rest = cs.drop_last();
        assert forall|i: int| 0 <= i < rest.len() implies is_component(#[trigger] rest[i]) by {
            assert(rest[i] == cs[i]);
        }
        lemma_segments_of_join_all(rest);
        lemma_join_all_shape(rest);
        let base = join_all(rest);
        if base.len() == 0 {
            assert(join_all(cs) =~= base + k);
            assert(base + k =~= Seq::<char>::empty() + k);
            lemma_segments_with_plain_tail(Seq::empty(), k, Seq::empty());
            assert(k + Seq::<char>::empty() =~= k);
            assert(segments(join_all(cs)) =~= seq![k]);
            assert(rest =~= Seq::<Seq<char>>::empty()) by {
                if rest.len() > 0 {
                    lemma_join_all_shape(rest);
                }
            }
            assert(cs =~= seq![k]);
        } else {
            let x = base + seq!['/'];
            assert(join_all(cs) =~= x + k);
            lemma_segments_with_plain_tail(x, k, Seq::empty());
            assert(k + Seq::<char>::empty() =~= k);
            assert(x.last() == '/');
            assert(x.drop_last() =~= base);
            assert(segments_with(x, k) == segments_with(base, Seq::empty()).push(k));
            assert(cs =~= rest.push(k));
        }
    }
}

/// Whether the glob pattern `glob` matches `path`, as fast_glob decides it.
pub uninterp spec fn glob_matches(glob: Seq<char>, path: Seq<char>) -> bool;

/// Relies on fast_glob::glob_match, whose answer depends on the pattern and
/// the path alone.
#[verifier::external_body]
pub(crate) fn glob_match(glob: &str, path: &str) -> (r: bool)
    ensures
        r == glob_matches(glob@, path@),
{
    fast_glob::glob_match(glob, path)
}

/// Relies on relative_path::RelativePath::components with Component::as_str:
/// the pieces of the path between `/` separators, empty pieces skipped.
#[verifier::external_body]
pub(crate) fn path_components(p: &str) -> (r: Vec<String>)
    ensures
        r@.len() == segments(p@).len(),
        forall|i: int| 0 <= i < r@.len() ==> #[trigger] r@[i]@ == segments(p@)[i],
{
    relative_path::RelativePath::new(p).components().map(|c| c.as_str().to_string()).collect()
}

/// Relies on relative_path::RelativePath::join (RelativePathBuf::push): a
/// separator goes between the two unless the base is empty or ends in one.
#[verifier::external_body]
pub(crate) fn join_path(base: &str, name: &str) -> (r: String)
    ensures
        r@ == joined(base@, name@),
{
    relative_path::RelativePath::new(base).join(name).into_string()
}

} // verus!
