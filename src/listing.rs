//! Directory listings computed from a snapshot of the flat record store: the
//! immediate child directories of a path, the files placed exactly at a path,
//! and the full directory tree below a path.

use vstd::prelude::*;
use crate::records::FileRecord;
use crate::paths::{is_component, is_path_component};
use crate::tree::{keys_are_components, keys_unique, well_formed, DirTreeNode};

verus! {

/// Offset of the first separator in `s`.
pub open spec fn first_sep(s: Seq<char>) -> Option<int>
    decreases s.len(),
{
    if s.len() == 0 {
        None
    } else if s[0] == '/' {
        Some(0)
    } else {
        match first_sep(s.drop_first()) {
            Some(o) => Some(o + 1),
            None => None,
        }
    }
}

/// The immediate child directory of `p` that the virtual path `v` lies in:
/// `p`, the next component after it, and a separator. None when `v` is not
/// strictly below `p`, or when what follows `p` up to the next separator is
/// not a proper component (empty, `.` or `..`): such a record lies in no
/// directory of the tree.
pub open spec fn child_dir(p: Seq<char>, v: Seq<char>) -> Option<Seq<char>> {
    if p.len() < v.len() && v.subrange(0, p.len() as int) == p {
        match first_sep(v.subrange(p.len() as int, v.len() as int)) {
            Some(o) => if is_component(v.subrange(p.len() as int, p.len() + o)) {
                Some(v.subrange(0, p.len() + o + 1))
            } else {
                None
            },
            None => None,
        }
    } else {
        None
    }
}

/// The child directories of `p` that the records of `rs` lie in, each once,
/// in the order in which they first occur.
pub open spec fn directories_at(rs: Seq<FileRecord>, p: Seq<char>) -> Seq<Seq<char>>
    decreases rs.len(),
{
    if rs.len() == 0 {
        Seq::empty()
    } else {
        let before = directories_at(rs.drop_last(), p);
        match child_dir(p, rs.last().file_vfs_path@) {
            Some(c) => if before.contains(c) {
                before
            } else {
                before.push(c)
            },
            None => before,
        }
    }
}

/// The records of `rs` whose virtual path is exactly `p`, in order.
pub open spec fn files_at(rs: Seq<FileRecord>, p: Seq<char>) -> Seq<FileRecord>
    decreases rs.len(),
{
    if rs.len() == 0 {
        Seq::empty()
    } else {
        let before = files_at(rs.drop_last(), p);
        if rs.last().file_vfs_path@ == p {
            before.push(rs.last())
        } else {
            before
        }
    }
}

/// Index of the first entry of `tab` named `k`.
pub open spec fn key_index(tab: Seq<(Seq<char>, FileRecord)>, k: Seq<char>) -> Option<int>
    decreases tab.len(),
{
    if tab.len() == 0 {
        None
    } else if tab[0].0 == k {
        Some(0)
    } else {
        match key_index(tab.drop_first(), k) {
            Some(i) => Some(i + 1),
            None => None,
        }
    }
}

/// `tab` with `r` put under its file name: in place of an entry of that name,
/// or else at the end.
pub open spec fn upsert(tab: Seq<(Seq<char>, FileRecord)>, r: FileRecord) -> Seq<(Seq<char>, FileRecord)> {
    match key_index(tab, r.file_name@) {
        Some(i) => tab.update(i, (r.file_name@, r)),
        None => tab.push((r.file_name@, r)),
    }
}

/// The file table of a directory that holds the records `fs`, put in one
/// after the other under their names.
pub open spec fn file_table(fs: Seq<FileRecord>) -> Seq<(Seq<char>, FileRecord)>
    decreases fs.len(),
{
    if fs.len() == 0 {
        Seq::empty()
    } else {
        upsert(file_table(fs.drop_last()), fs.last())
    }
}

/// A file table with its names as character sequences.
pub open spec fn table_of(v: Seq<(String, FileRecord)>) -> Seq<(Seq<char>, FileRecord)> {
    v.map_values(|e: (String, FileRecord)| (e.0@, e.1))
}

/// The name under which the child directory `c` of `p` is kept: the
/// component between `p` and the final separator.
pub open spec fn leaf_of(p: Seq<char>, c: Seq<char>) -> Seq<char> {
    c.subrange(p.len() as int, c.len() - 1)
}

/// `t` is the tree that the store `rs` holds below the directory `p`: its
/// files are those placed exactly at `p`, and each child directory of `p`,
/// in order, stands under its leaf name as the tree below that directory.
pub open spec fn is_tree_of(t: DirTreeNode, rs: Seq<FileRecord>, p: Seq<char>) -> bool
    decreases t,
{
    let dirs = directories_at(rs, p);
    &&& t.dirpath@ == p
    &&& table_of(t.files@) == file_table(files_at(rs, p))
    &&& t.subdirs@.len() == dirs.len()
    &&& forall|i: int| 0 <= i < t.subdirs@.len() ==> {
        &&& (#[trigger] t.subdirs@[i]).0@ == leaf_of(p, dirs[i])
        &&& is_tree_of(t.subdirs@[i].1, rs, dirs[i])
    }
}

/// Two trees with the same paths, file tables and subdirectory names all the
/// way down.
pub open spec fn same_tree(a: DirTreeNode, b: DirTreeNode) -> bool
    decreases a,
{
    &&& a.dirpath@ == b.dirpath@
    &&& table_of(a.files@) == table_of(b.files@)
    &&& a.subdirs@.len() == b.subdirs@.len()
    &&& forall|i: int| 0 <= i < a.subdirs@.len() ==> {
        &&& (#[trigger] a.subdirs@[i]).0@ == b.subdirs@[i].0@
        &&& same_tree(a.subdirs@[i].1, b.subdirs@[i].1)
    }
}

/// The longest virtual path among the records.
pub open spec fn longest_path(rs: Seq<FileRecord>) -> nat
    decreases rs.len(),
{
    if rs.len() == 0 {
        0
    } else {
        let before = longest_path(rs.drop_last());
        if rs.last().file_vfs_path@.len() > before {
            rs.last().file_vfs_path@.len()
        } else {
            before
        }
    }
}

/// `v` holds the strings `s`, in order.
pub open spec fn strings_are(v: Seq<String>, s: Seq<Seq<char>>) -> bool {
    v.len() == s.len() && forall|i: int| 0 <= i < v.len() ==> #[trigger] v[i]@ == s[i]
}

proof fn lemma_first_sep_at(s: Seq<char>, o: int)
    requires
        0 <= o < s.len(),
        s[o] == '/',
        forall|j: int| 0 <= j < o ==> s[j] != '/',
    ensures
        first_sep(s) == Some(o),
    decreases o,
{
    if o > 0 {
        let t = s.drop_first();
        assert forall|j: int| 0 <= j < o - 1 implies t[j] != '/' by {
            assert(t[j] == s[j + 1]);
        }
        lemma_first_sep_at(t, o - 1);
    }
}

proof fn lemma_first_sep_none(s: Seq<char>)
    requires
        forall|j: int| 0 <= j < s.len() ==> s[j] != '/',
    ensures
        first_sep(s) is None,
    decreases s.len(),
{
    if s.len() > 0 {
        let t = s.drop_first();
        assert forall|j: int| 0 <= j < t.len() implies t[j] != '/' by {
            assert(t[j] == s[j + 1]);
        }
        lemma_first_sep_none(t);
    }
}

proof fn lemma_longest_path(rs: Seq<FileRecord>)
    ensures
        forall|i: int| 0 <= i < rs.len() ==> (#[trigger] rs[i]).file_vfs_path@.len() <= longest_path(rs),
    decreases rs.len(),
{
    if rs.len() > 0 {
        lemma_longest_path(rs.drop_last());
        assert forall|i: int| 0 <= i < rs.len() implies (#[trigger] rs[i]).file_vfs_path@.len() <= longest_path(rs) by {
            if i < rs.len() - 1 {
                assert(rs[i] == rs.drop_last()[i]);
            }
        }
    }
}

/// Every child directory of `p` lies strictly below `p`, ends in a separator,
/// and is no longer than the longest record path.
proof fn lemma_directories_shape(rs: Seq<FileRecord>, p: Seq<char>, bound: int)
    requires
        forall|i: int| 0 <= i < rs.len() ==> (#[trigger] rs[i]).file_vfs_path@.len() <= bound,
    ensures
        forall|j: int| 0 <= j < directories_at(rs, p).len() ==> {
            let c = #[trigger] directories_at(rs, p)[j];
            &&& p.len() < c.len() - 1
            &&& c.len() <= bound
            &&& c.subrange(0, p.len() as int) == p
            &&& c.last() == '/'
            &&& forall|m: int| p.len() <= m < c.len() - 1 ==> c[m] != '/'
            &&& is_component(leaf_of(p, c))
        },
    decreases rs.len(),
{
    if rs.len() > 0 {
        let rest = rs.drop_last();
        assert forall|i: int| 0 <= i < rest.len() implies (#[trigger] rest[i]).file_vfs_path@.len() <= bound by {
            assert(rest[i] == rs[i]);
        }
        lemma_directories_shape(rest, p, bound);
        let v = rs.last().file_vfs_path@;
        assert(rs[rs.len() - 1] == rs.last());
        let before = directories_at(rest, p);
        let ds = directories_at(rs, p);
        match child_dir(p, v) {
            Some(c) => {
                let tail = v.subrange(p.len() as int, v.len() as int);
                let o = first_sep(tail)->0;
                lemma_first_sep_bound(tail);
                assert(c =~= v.subrange(0, p.len() + o + 1));
                assert(c.subrange(0, p.len() as int) =~= v.subrange(0, p.len() as int));
                assert(c.last() == tail[o]);
                assert forall|m: int| p.len() <= m < c.len() - 1 implies c[m] != '/' by {
                    assert(c[m] == tail[m - p.len()]);
                }
                assert(leaf_of(p, c) =~= v.subrange(p.len() as int, p.len() + o));
                assert(ds == before || ds == before.push(c));
                assert forall|j: int| 0 <= j < ds.len() implies {
                    let d = #[trigger] ds[j];
                    &&& p.len() < d.len() - 1
                    &&& d.len() <= bound
                    &&& d.subrange(0, p.len() as int) == p
                    &&& d.last() == '/'
                    &&& forall|m: int| p.len() <= m < d.len() - 1 ==> d[m] != '/'
                    &&& is_component(leaf_of(p, d))
                } by {
                    if j < before.len() {
                        assert(ds[j] == before[j]);
                    } else {
                        assert(ds[j] == c);
                    }
                }
            },
            None => {
                assert(ds == before);
            },
        }
    }
}

proof fn lemma_first_sep_bound(s: Seq<char>)
    ensures
        first_sep(s) matches Some(o) ==> {
            &&& 0 <= o < s.len()
            &&& s[o] == '/'
            &&& forall|j: int| 0 <= j < o ==> s[j] != '/'
        },
    decreases s.len(),
{
    if s.len() > 0 && s[0] != '/' {
        let t = s.drop_first();
        lemma_first_sep_bound(t);
        if first_sep(s) is Some {
            let o = first_sep(s)->0;
            assert forall|j: int| 0 <= j < o implies s[j] != '/' by {
                if j > 0 {
                    assert(s[j] == t[j - 1]);
                }
            }
        }
    }
}

proof fn lemma_key_index_at(tab: Seq<(Seq<char>, FileRecord)>, k: Seq<char>, i: int)
    requires
        0 <= i < tab.len(),
        tab[i].0 == k,
        forall|j: int| 0 <= j < i ==> tab[j].0 != k,
    ensures
        key_index(tab, k) == Some(i),
    decreases i,
{
    if i > 0 {
        let t = tab.drop_first();
        assert forall|j: int| 0 <= j < i - 1 implies t[j].0 != k by {
            assert(t[j] == tab[j + 1]);
        }
        lemma_key_index_at(t, k, i - 1);
    }
}

proof fn lemma_key_index_none(tab: Seq<(Seq<char>, FileRecord)>, k: Seq<char>)
    requires
        forall|j: int| 0 <= j < tab.len() ==> tab[j].0 != k,
    ensures
        key_index(tab, k) is None,
    decreases tab.len(),
{
    if tab.len() > 0 {
        let t = tab.drop_first();
        assert forall|j: int| 0 <= j < t.len() implies t[j].0 != k by {
            assert(t[j] == tab[j + 1]);
        }
        lemma_key_index_none(t, k);
    }
}

/// Puts `rec` into a directory's file table under its name.
fn upsert_file(files: &mut Vec<(String, FileRecord)>, rec: FileRecord)
    ensures
        table_of(final(files)@) == upsert(table_of(old(files)@), rec),
{
    let ghost tab = table_of(files@);
    let mut i: usize = 0;
    while i < files.len()
        invariant
            i <= files@.len(),
            tab == table_of(files@),
            *files == *old(files),
            forall|j: int| 0 <= j < i ==> files@[j].0@ != rec.file_name@,
        decreases files@.len() - i,
    {
        if files[i].0 == rec.file_name {
            proof {
                assert forall|j: int| 0 <= j < i implies tab[j].0 != rec.file_name@ by {
                    assert(tab[j].0 == files@[j].0@);
                }
                lemma_key_index_at(tab, rec.file_name@, i as int);
            }
            let name = rec.file_name.clone();
            files.set(i, (name, rec));
            assert(table_of(files@) =~= tab.update(i as int, (rec.file_name@, rec)));
            return;
        }
        i = i + 1;
    }
    proof {
        assert forall|j: int| 0 <= j < tab.len() implies tab[j].0 != rec.file_name@ by {
            assert(tab[j].0 == files@[j].0@);
        }
        lemma_key_index_none(tab, rec.file_name@);
    }
    let name = rec.file_name.clone();
    files.push((name, rec));
    assert(table_of(files@) =~= tab.push((rec.file_name@, rec)));
}

/// The listing of child directories holds each child directory of `p` that
/// some record lies in, and nothing else, each exactly once.
pub proof fn child_directories_listed_once(rs: Seq<FileRecord>, p: Seq<char>)
    ensures
        forall|i: int, j: int| 0 <= i < j < directories_at(rs, p).len() ==> directories_at(rs, p)[i] != directories_at(rs, p)[j],
        forall|c: Seq<char>| #[trigger] directories_at(rs, p).contains(c) <==> exists|k: int| 0 <= k < rs.len() && child_dir(p, (#[trigger] rs[k]).file_vfs_path@) == Some(c),
    decreases rs.len(),
{
    if rs.len() > 0 {
        let rest = rs.drop_last();
        child_directories_listed_once(rest, p);
        let before = directories_at(rest, p);
        let ds = directories_at(rs, p);
        let last = rs.last();
        assert(rs[rs.len() - 1] == last);
        assert forall|c: Seq<char>| #[trigger] ds.contains(c) <==> exists|k: int| 0 <= k < rs.len() && child_dir(p, (#[trigger] rs[k]).file_vfs_path@) == Some(c) by {
            if ds.contains(c) {
                if before.contains(c) {
                    let k = choose|k: int| 0 <= k < rest.len() && child_dir(p, (#[trigger] rest[k]).file_vfs_path@) == Some(c);
                    assert(rs[k] == rest[k]);
                } else {
                    let m = choose|m: int| 0 <= m < ds.len() && ds[m] == c;
                    assert(ds != before);
                    assert(child_dir(p, last.file_vfs_path@) == Some(ds.last()));
                    assert(ds == before.push(ds.last()));
                    if m < before.len() {
                        assert(ds[m] == before[m]);
                        assert(before.contains(c));
                    }
                    assert(child_dir(p, rs[rs.len() - 1].file_vfs_path@) == Some(c));
                }
            }
            if exists|k: int| 0 <= k < rs.len() && child_dir(p, (#[trigger] rs[k]).file_vfs_path@) == Some(c) {
                let k = choose|k: int| 0 <= k < rs.len() && child_dir(p, (#[trigger] rs[k]).file_vfs_path@) == Some(c);
                if k < rs.len() - 1 {
                    assert(rest[k] == rs[k]);
                    assert(before.contains(c));
                    let m = choose|m: int| 0 <= m < before.len() && before[m] == c;
                    assert(ds[m] == before[m]);
                } else {
                    if before.contains(c) {
                        let m = choose|m: int| 0 <= m < before.len() && before[m] == c;
                        assert(ds[m] == before[m]);
                    } else {
                        assert(ds == before.push(c));
                        assert(ds[ds.len() - 1] == c);
                    }
                }
            }
        }
        assert forall|i: int, j: int| 0 <= i < j < ds.len() implies ds[i] != ds[j] by {
            if j < before.len() {
                assert(ds[i] == before[i] && ds[j] == before[j]);
            } else if ds != before {
                assert(ds[i] == before[i]);
                if ds[i] == ds[j] {
                    assert(before.contains(ds[j]));
                }
            }
        }
    }
}

/// Putting records in one by one keeps the names of a file table distinct,
/// and single components when the records' names are.
proof fn lemma_file_table_keys(fs: Seq<FileRecord>)
    ensures
        forall|i: int, j: int| 0 <= i < j < file_table(fs).len() ==> file_table(fs)[i].0 != file_table(fs)[j].0,
        (forall|k: int| 0 <= k < fs.len() ==> is_component((#[trigger] fs[k]).file_name@)) ==> forall|i: int|
            0 <= i < file_table(fs).len() ==> is_component((#[trigger] file_table(fs)[i]).0),
    decreases fs.len(),
{
    if fs.len() > 0 {
        let rest = fs.drop_last();
        lemma_file_table_keys(rest);
        let tab = file_table(rest);
        let r = fs.last();
        assert(fs[fs.len() - 1] == r);
        lemma_key_index_bound(tab, r.file_name@);
        let out = file_table(fs);
        if (forall|k: int| 0 <= k < fs.len() ==> is_component((#[trigger] fs[k]).file_name@)) {
            assert forall|k: int| 0 <= k < rest.len() implies is_component((#[trigger] rest[k]).file_name@) by {
                assert(rest[k] == fs[k]);
            }
            assert forall|i: int| 0 <= i < out.len() implies is_component((#[trigger] out[i]).0) by {
                if i < tab.len() {
                    if out[i] != tab[i] {
                        assert(out[i].0 == r.file_name@);
                    }
                } else {
                    assert(out[i].0 == r.file_name@);
                }
            }
        }
        match key_index(tab, r.file_name@) {
            Some(x) => {
                assert forall|i: int, j: int| 0 <= i < j < out.len() implies out[i].0 != out[j].0 by {
                    if i == x {
                        assert(out[i].0 == tab[x].0);
                    }
                    if j == x {
                        assert(out[j].0 == tab[x].0);
                    }
                }
            },
            None => {
                assert forall|i: int, j: int| 0 <= i < j < out.len() implies out[i].0 != out[j].0 by {
                    if j == tab.len() {
                        assert(out[i] == tab[i]);
                    }
                }
            },
        }
    }
}

proof fn lemma_key_index_bound(tab: Seq<(Seq<char>, FileRecord)>, k: Seq<char>)
    ensures
        key_index(tab, k) matches Some(i) ==> 0 <= i < tab.len() && tab[i].0 == k,
        key_index(tab, k) is None ==> forall|j: int| 0 <= j < tab.len() ==> tab[j].0 != k,
    decreases tab.len(),
{
    if tab.len() > 0 && tab[0].0 != k {
        let t = tab.drop_first();
        lemma_key_index_bound(t, k);
        assert forall|j: int| 0 < j < tab.len() implies tab[j] == t[j - 1] by {}
    }
}

/// A tree built from a store whose file names are single path components is
/// well formed, so every path of its flattening leads back to its file.
pub proof fn built_trees_are_well_formed(t: DirTreeNode, rs: Seq<FileRecord>, p: Seq<char>)
    requires
        is_tree_of(t, rs, p),
        forall|k: int| 0 <= k < rs.len() ==> is_component((#[trigger] rs[k]).file_name@),
    ensures
        well_formed(t),
    decreases t,
{
    let dirs = directories_at(rs, p);
    let fs = files_at(rs, p);
    lemma_files_at_within(rs, p);
    assert forall|k: int| 0 <= k < fs.len() implies is_component((#[trigger] fs[k]).file_name@) by {
        let m = choose|m: int| 0 <= m < rs.len() && rs[m] == fs[k];
    }
    lemma_file_table_keys(fs);
    let tab = file_table(fs);
    assert(table_of(t.files@) == tab);
    assert forall|i: int, j: int| 0 <= i < j < t.files@.len() implies t.files@[i].0@ != t.files@[j].0@ by {
        assert(tab[i].0 == t.files@[i].0@);
        assert(tab[j].0 == t.files@[j].0@);
    }
    assert forall|i: int| 0 <= i < t.files@.len() implies is_component(#[trigger] t.files@[i].0@) by {
        assert(tab[i].0 == t.files@[i].0@);
    }
    lemma_longest_path(rs);
    lemma_directories_shape(rs, p, longest_path(rs) as int);
    child_directories_listed_once(rs, p);
    assert forall|i: int| 0 <= i < t.subdirs@.len() implies is_component(#[trigger] t.subdirs@[i].0@) by {
        let c = dirs[i];
        let leaf = leaf_of(p, c);
        assert(t.subdirs@[i].0@ == leaf);
    }
    assert forall|i: int, j: int| 0 <= i < j < t.subdirs@.len() implies t.subdirs@[i].0@ != t.subdirs@[j].0@ by {
        let a = dirs[i];
        let b = dirs[j];
        assert(t.subdirs@[i].0@ == leaf_of(p, a));
        assert(t.subdirs@[j].0@ == leaf_of(p, b));
        if leaf_of(p, a) == leaf_of(p, b) {
            assert(a.len() == b.len());
            assert forall|m: int| 0 <= m < a.len() implies a[m] == b[m] by {
                if m < p.len() {
                    assert(a[m] == a.subrange(0, p.len() as int)[m]);
                    assert(b[m] == b.subrange(0, p.len() as int)[m]);
                } else if m < a.len() - 1 {
                    assert(a[m] == leaf_of(p, a)[m - p.len()]);
                    assert(b[m] == leaf_of(p, b)[m - p.len()]);
                } else {
                    assert(a[m] == a.last());
                    assert(b[m] == b.last());
                }
            }
            assert(a =~= b);
        }
    }
    assert forall|i: int| 0 <= i < t.subdirs@.len() implies well_formed(#[trigger] t.subdirs@[i].1) by {
        built_trees_are_well_formed(t.subdirs@[i].1, rs, dirs[i]);
    }
}

proof fn lemma_files_at_within(rs: Seq<FileRecord>, p: Seq<char>)
    ensures
        forall|k: int| 0 <= k < files_at(rs, p).len() ==> rs.contains(#[trigger] files_at(rs, p)[k]),
    decreases rs.len(),
{
    if rs.len() > 0 {
        let rest = rs.drop_last();
        lemma_files_at_within(rest, p);
        let f = files_at(rs, p);
        assert forall|k: int| 0 <= k < f.len() implies rs.contains(#[trigger] f[k]) by {
            if k < files_at(rest, p).len() {
                assert(f[k] == files_at(rest, p)[k]);
                assert(rest.contains(f[k]));
                let m = choose|m: int| 0 <= m < rest.len() && rest[m] == f[k];
                assert(rs[m] == rest[m]);
            } else {
                assert(f[k] == rs.last());
                assert(rs[rs.len() - 1] == rs.last());
            }
        }
    }
}

/// Tree-building idempotence: the tree that a store holds below a path is
/// determined by the store and the path, so building it twice from an
/// unchanged store gives structurally equal trees.
pub proof fn dir_tree_is_determined_by_store(a: DirTreeNode, b: DirTreeNode, rs: Seq<FileRecord>, p: Seq<char>)
    requires
        is_tree_of(a, rs, p),
        is_tree_of(b, rs, p),
    ensures
        same_tree(a, b),
    decreases a,
{
    let dirs = directories_at(rs, p);
    assert forall|i: int| 0 <= i < a.subdirs@.len() implies {
        &&& (#[trigger] a.subdirs@[i]).0@ == b.subdirs@[i].0@
        &&& same_tree(a.subdirs@[i].1, b.subdirs@[i].1)
    } by {
        assert(is_tree_of(a.subdirs@[i].1, rs, dirs[i]));
        assert(is_tree_of(b.subdirs@[i].1, rs, dirs[i]));
        dir_tree_is_determined_by_store(a.subdirs@[i].1, b.subdirs@[i].1, rs, dirs[i]);
    }
}

/// The child directory of `p` that `v` lies in, if `v` lies strictly below
/// `p` under a non-empty component.
pub fn child_dir_of(p: &str, v: &str) -> (r: Option<String>)
    ensures
        match r {
            Some(c) => child_dir(p@, v@) == Some(c@),
            None => child_dir(p@, v@) is None,
        },
{
    let pl = p.unicode_len();
    let vl = v.unicode_len();
    if pl >= vl {
        return None;
    }
    let mut i: usize = 0;
    while i < pl
        invariant
            pl == p@.len(),
            vl == v@.len(),
            pl < vl,
            i <= pl,
            forall|j: int| 0 <= j < i ==> v@[j] == p@[j],
        decreases pl - i,
    {
        if v.get_char(i) != p.get_char(i) {
            assert(v@.subrange(0, pl as int)[i as int] != p@[i as int]);
            return None;
        }
        i = i + 1;
    }
    assert(v@.subrange(0, pl as int) =~= p@);
    let ghost rest = v@.subrange(pl as int, vl as int);
    let mut k: usize = pl;
    while k < vl
        invariant
            pl == p@.len(),
            vl == v@.len(),
            pl <= k <= vl,
            rest == v@.subrange(pl as int, vl as int),
            forall|j: int| pl <= j < k ==> v@[j] != '/',
        ensures
            pl <= k <= vl,
            forall|j: int| pl <= j < k ==> v@[j] != '/',
            k < vl ==> v@[k as int] == '/',
        decreases vl - k,
    {
        if v.get_char(k) == '/' {
            break;
        }
        k = k + 1;
    }
    if k == vl {
        proof {
            assert forall|j: int| 0 <= j < rest.len() implies rest[j] != '/' by {
                assert(rest[j] == v@[pl + j]);
            }
            lemma_first_sep_none(rest);
        }
        return None;
    }
    proof {
        assert(v@[k as int] == '/');
        assert forall|j: int| 0 <= j < k - pl implies rest[j] != '/' by {
            assert(rest[j] == v@[pl + j]);
        }
        assert(rest[k - pl] == v@[k as int]);
        lemma_first_sep_at(rest, k - pl);
    }
    let segment = v.substring_char(pl, k);
    assert(segment@ =~= v@.subrange(pl as int, pl + (k - pl)));
    if !is_path_component(segment) {
        return None;
    }
    Some(v.substring_char(0, k + 1).to_string())
}

/// A snapshot of the flat record store, from which directory listings and
/// trees are computed.
pub struct FileIndex {
    pub records: Vec<FileRecord>,
}

impl FileIndex {
    /// The immediate child directories of `dirpath` (the empty path is the
    /// root), each ending in a separator, without duplicates.
    pub fn get_directories_at(&self, dirpath: &str) -> (r: Vec<String>)
        ensures
            strings_are(r@, directories_at(self.records@, dirpath@)),
    {
        let mut out: Vec<String> = Vec::new();
        let mut i: usize = 0;
        while i < self.records.len()
            invariant
                i <= self.records@.len(),
                strings_are(out@, directories_at(self.records@.subrange(0, i as int), dirpath@)),
            decreases self.records@.len() - i,
        {
            let ghost before = directories_at(self.records@.subrange(0, i as int), dirpath@);
            assert(self.records@.subrange(0, i + 1).drop_last() =~= self.records@.subrange(0, i as int));
            match child_dir_of(dirpath, self.records[i].file_vfs_path.as_str()) {
                Some(c) => {
                    let mut seen = false;
                    let mut j: usize = 0;
                    while j < out.len()
                        invariant
                            j <= out@.len(),
                            strings_are(out@, before),
                            seen <==> exists|m: int| 0 <= m < j && before[m] == c@,
                        decreases out@.len() - j,
                    {
                        if out[j] == c {
                            seen = true;
                        }
                        j = j + 1;
                    }
                    if !seen {
                        out.push(c);
                        assert(out@.len() == before.push(c@).len());
                    } else {
                        assert(before.contains(c@));
                    }
                },
                None => {},
            }
            i = i + 1;
        }
        assert(self.records@.subrange(0, self.records@.len() as int) =~= self.records@);
        out
    }

    /// The full tree below `dirpath`: its own files, and each child directory
    /// built the same way and kept under its leaf name. A record whose path
    /// below `dirpath` has an empty, `.` or `..` segment lies in no directory
    /// and is left out (see `child_dir`). When every file name is a single
    /// component, the tree is well formed, so lookups of flattened paths
    /// find their files.
    pub fn get_dir_tree_at(&self, dirpath: &str) -> (r: DirTreeNode)
        ensures
            is_tree_of(r, self.records@, dirpath@),
            (forall|k: int| 0 <= k < self.records@.len() ==> is_component((#[trigger] self.records@[k]).file_name@))
                ==> well_formed(r),
    {
        proof {
            lemma_longest_path(self.records@);
        }
        let r = self.build_tree(dirpath, Ghost(longest_path(self.records@) as int));
        proof {
            if forall|k: int| 0 <= k < self.records@.len() ==> is_component((#[trigger] self.records@[k]).file_name@) {
                built_trees_are_well_formed(r, self.records@, dirpath@);
            }
        }
        r
    }

    fn build_tree(&self, dirpath: &str, Ghost(bound): Ghost<int>) -> (r: DirTreeNode)
        requires
            forall|i: int| 0 <= i < self.records@.len() ==> (#[trigger] self.records@[i]).file_vfs_path@.len() <= bound,
        ensures
            is_tree_of(r, self.records@, dirpath@),
        decreases bound - dirpath@.len(),
    {
        let mut node = DirTreeNode::new(dirpath);
        let files = self.get_files_at(dirpath);
        let mut i: usize = 0;
        assert(table_of(node.files@) =~= file_table(files@.subrange(0, 0)));
        while i < files.len()
            invariant
                i <= files@.len(),
                node.dirpath@ == dirpath@,
                node.subdirs@.len() == 0,
                table_of(node.files@) == file_table(files@.subrange(0, i as int)),
            decreases files@.len() - i,
        {
            assert(files@.subrange(0, i + 1).drop_last() =~= files@.subrange(0, i as int));
            upsert_file(&mut node.files, files[i].duplicate());
            i = i + 1;
        }
        assert(files@.subrange(0, files@.len() as int) =~= files@);
        let dirs = self.get_directories_at(dirpath);
        let ghost ds = directories_at(self.records@, dirpath@);
        proof {
            lemma_directories_shape(self.records@, dirpath@, bound);
        }
        let mut k: usize = 0;
        while k < dirs.len()
            invariant
                k <= dirs@.len(),
                ds == directories_at(self.records@, dirpath@),
                strings_are(dirs@, ds),
                node.dirpath@ == dirpath@,
                table_of(node.files@) == file_table(files_at(self.records@, dirpath@)),
                node.subdirs@.len() == k,
                forall|j: int| 0 <= j < k ==> {
                    &&& (#[trigger] node.subdirs@[j]).0@ == leaf_of(dirpath@, ds[j])
                    &&& is_tree_of(node.subdirs@[j].1, self.records@, ds[j])
                },
                forall|j: int| 0 <= j < ds.len() ==> {
                    let c = #[trigger] ds[j];
                    &&& dirpath@.len() < c.len() - 1
                    &&& c.len() <= bound
                },
                forall|i: int| 0 <= i < self.records@.len() ==> (#[trigger] self.records@[i]).file_vfs_path@.len() <= bound,
            decreases dirs@.len() - k,
        {
            let child_path = dirs[k].as_str();
            assert(child_path@ == ds[k as int]);
            let child = self.build_tree(child_path, Ghost(bound));
            let leaf = child_path.substring_char(dirpath.unicode_len(), child_path.unicode_len() - 1).to_string();
            node.subdirs.push((leaf, child));
            k = k + 1;
        }
        node
    }

    /// The records whose virtual path is exactly `dirpath`: the files placed
    /// directly in that directory.
    pub fn get_files_at(&self, dirpath: &str) -> (r: Vec<FileRecord>)
        ensures
            r@ == files_at(self.records@, dirpath@),
    {
        let mut out: Vec<FileRecord> = Vec::new();
        let target = dirpath.to_string();
        let mut i: usize = 0;
        while i < self.records.len()
            invariant
                i <= self.records@.len(),
                target@ == dirpath@,
                out@ == files_at(self.records@.subrange(0, i as int), dirpath@),
            decreases self.records@.len() - i,
        {
            assert(self.records@.subrange(0, i + 1).drop_last() =~= self.records@.subrange(0, i as int));
            if self.records[i].file_vfs_path == target {
                out.push(self.records[i].duplicate());
            }
            i = i + 1;
        }
        assert(self.records@.subrange(0, self.records@.len() as int) =~= self.records@);
        out
    }
}

} // verus!
