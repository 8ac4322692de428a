//! The virtual directory tree: one node per directory, holding its files and
//! its fully built subdirectories, with lookup by path, glob search and
//! flattening.

use vstd::prelude::*;
use crate::paths::{
    glob_match, glob_matches, is_component, is_path_component, join_all, join_path, joined, lemma_segments_of_join_all,
    path_components, segments,
};
use crate::records::FileRecord;

verus! {

/// One virtual directory: its own path (with a trailing separator), its files
/// keyed by file name, and its immediate subdirectories keyed by leaf name.
#[derive(Debug)]
pub struct DirTreeNode {
    pub dirpath: String,
    pub files: Vec<(String, FileRecord)>,
    pub subdirs: Vec<(String, DirTreeNode)>,
}

/// What a path inside a tree leads to.
#[derive(Debug, Clone)]
pub enum CursorIntoItem<'a> {
    Dir(&'a DirTreeNode),
    File(&'a FileRecord),
}

/// The value of the first entry of `s` whose key is `k`.
pub open spec fn named<V>(s: Seq<(String, V)>, k: Seq<char>) -> Option<V>
    decreases s.len(),
{
    if s.len() == 0 {
        None
    } else if s[0].0@ == k {
        Some(s[0].1)
    } else {
        named(s.drop_first(), k)
    }
}

/// No two entries of `s` have the same key.
pub open spec fn keys_unique<V>(s: Seq<(String, V)>) -> bool {
    forall|i: int, j: int| 0 <= i < j < s.len() ==> s[i].0@ != s[j].0@
}

/// Every key of `s` can stand as one path component.
pub open spec fn keys_are_components<V>(s: Seq<(String, V)>) -> bool {
    forall|i: int| 0 <= i < s.len() ==> is_component(#[trigger] s[i].0@)
}

/// A tree whose lookups are unambiguous: within each directory no two files
/// and no two subdirectories share a name, every name is a single path
/// component, and every subdirectory is well formed too.
pub open spec fn well_formed(t: DirTreeNode) -> bool
    decreases t,
{
    &&& keys_unique(t.files@)
    &&& keys_unique(t.subdirs@)
    &&& keys_are_components(t.files@)
    &&& keys_are_components(t.subdirs@)
    &&& forall|i: int| 0 <= i < t.subdirs@.len() ==> well_formed(#[trigger] t.subdirs@[i].1)
}

/// `b` is a copy of `a`: the same path and files, and copies of the same
/// subdirectories under the same names.
pub open spec fn is_copy(a: DirTreeNode, b: DirTreeNode) -> bool
    decreases a,
{
    &&& b.dirpath == a.dirpath
    &&& b.files@ == a.files@
    &&& b.subdirs@.len() == a.subdirs@.len()
    &&& forall|i: int| 0 <= i < a.subdirs@.len() ==> {
        &&& (#[trigger] b.subdirs@[i]).0 == a.subdirs@[i].0
        &&& is_copy(a.subdirs@[i].1, b.subdirs@[i].1)
    }
}

/// The directory reached from `t` by following subdirectories named `dirs`.
pub open spec fn node_at(t: DirTreeNode, dirs: Seq<Seq<char>>) -> Option<DirTreeNode>
    decreases dirs.len(),
{
    if dirs.len() == 0 {
        Some(t)
    } else {
        match node_at(t, dirs.drop_last()) {
            Some(n) => named(n.subdirs@, dirs.last()),
            None => None,
        }
    }
}

/// The file that the components `cs` name inside `t`.
pub open spec fn file_at(t: DirTreeNode, cs: Seq<Seq<char>>) -> Option<FileRecord> {
    if cs.len() == 0 {
        None
    } else {
        match node_at(t, cs.drop_last()) {
            Some(n) => named(n.files@, cs.last()),
            None => None,
        }
    }
}

/// The records of `files` whose names match `pattern`, in order.
pub open spec fn matching_files(files: Seq<(String, FileRecord)>, pattern: Seq<char>) -> Seq<FileRecord>
    decreases files.len(),
{
    if files.len() == 0 {
        Seq::empty()
    } else {
        let rest = matching_files(files.drop_last(), pattern);
        if glob_matches(pattern, files.last().0@) {
            rest.push(files.last().1)
        } else {
            rest
        }
    }
}

/// The records in `t` and every directory below it whose names match
/// `pattern`: first those of `t` itself, then those under each subdirectory
/// in turn.
pub open spec fn matching_files_below(t: DirTreeNode, pattern: Seq<char>) -> Seq<FileRecord>
    decreases t, t.subdirs@.len() + 1,
{
    matching_files(t.files@, pattern) + matching_files_in_subdirs(t, pattern, t.subdirs@.len() as int)
}

/// The matching records under the first `n` subdirectories of `t`.
pub open spec fn matching_files_in_subdirs(t: DirTreeNode, pattern: Seq<char>, n: int) -> Seq<FileRecord>
    decreases t, n,
{
    if n <= 0 || n > t.subdirs@.len() {
        Seq::empty()
    } else {
        matching_files_in_subdirs(t, pattern, n - 1) + matching_files_below(t.subdirs@[n - 1].1, pattern)
    }
}

/// The files of `files`, each with its components: `pcs` and then its name.
pub open spec fn file_entries(files: Seq<(String, FileRecord)>, pcs: Seq<Seq<char>>) -> Seq<(Seq<Seq<char>>, FileRecord)>
    decreases files.len(),
{
    if files.len() == 0 {
        Seq::empty()
    } else {
        file_entries(files.drop_last(), pcs).push((pcs.push(files.last().0@), files.last().1))
    }
}

/// Every file in `t` and below, each with its components relative to `t`
/// after `pcs`, depth first: the files of `t`, then each subdirectory in turn.
pub open spec fn entries_below(t: DirTreeNode, pcs: Seq<Seq<char>>) -> Seq<(Seq<Seq<char>>, FileRecord)>
    decreases t, t.subdirs@.len() + 1,
{
    file_entries(t.files@, pcs) + entries_in_subdirs(t, pcs, t.subdirs@.len() as int)
}

/// The entries under the first `n` subdirectories of `t`.
pub open spec fn entries_in_subdirs(t: DirTreeNode, pcs: Seq<Seq<char>>, n: int) -> Seq<(Seq<Seq<char>>, FileRecord)>
    decreases t, n,
{
    if n <= 0 || n > t.subdirs@.len() {
        Seq::empty()
    } else {
        entries_in_subdirs(t, pcs, n - 1) + entries_below(t.subdirs@[n - 1].1, pcs.push(t.subdirs@[n - 1].0@))
    }
}

/// The flattening of `t`: every file below it with its path relative to `t`.
pub open spec fn flattened(t: DirTreeNode) -> Seq<(Seq<Seq<char>>, FileRecord)> {
    entries_below(t, Seq::empty())
}

/// The entries of `es` whose full paths match `pattern`, in order.
pub open spec fn entries_matching(es: Seq<(Seq<Seq<char>>, FileRecord)>, pattern: Seq<char>) -> Seq<(Seq<Seq<char>>, FileRecord)>
    decreases es.len(),
{
    if es.len() == 0 {
        Seq::empty()
    } else {
        let rest = entries_matching(es.drop_last(), pattern);
        if glob_matches(pattern, join_all(es.last().0)) {
            rest.push(es.last())
        } else {
            rest
        }
    }
}

/// `v` lists the entries `es`: the same records, each with its components
/// joined into one path.
pub open spec fn lists_entries(v: Seq<(String, FileRecord)>, es: Seq<(Seq<Seq<char>>, FileRecord)>) -> bool {
    &&& v.len() == es.len()
    &&& forall|i: int| 0 <= i < v.len() ==> (#[trigger] v[i]).0@ == join_all(es[i].0) && v[i].1 == es[i].1
}

/// `new` is `old` followed by a listing of `es`.
pub open spec fn extends_with(old: Seq<(String, FileRecord)>, new: Seq<(String, FileRecord)>, es: Seq<(Seq<Seq<char>>, FileRecord)>) -> bool {
    &&& new.len() == old.len() + es.len()
    &&& forall|i: int| 0 <= i < old.len() ==> #[trigger] new[i] == old[i]
    &&& lists_entries(new.subrange(old.len() as int, new.len() as int), es)
}

/// The first entry of `s` named `k`, by reference.
fn find_named<'a, V>(s: &'a Vec<(String, V)>, k: &String) -> (r: Option<&'a V>)
    ensures
        match r {
            Some(v) => named(s@, k@) == Some(*v),
            None => named(s@, k@) is None,
        },
{
    let mut i: usize = 0;
    assert(s@.subrange(0, s@.len() as int) =~= s@);
    while i < s.len()
        invariant
            i <= s@.len(),
            named(s@, k@) == named(s@.subrange(i as int, s@.len() as int), k@),
        decreases s@.len() - i,
    {
        let ghost rest = s@.subrange(i as int, s@.len() as int);
        assert(rest.drop_first() =~= s@.subrange(i + 1, s@.len() as int));
        if s[i].0 == *k {
            return Some(&s[i].1);
        }
        i = i + 1;
    }
    None
}

impl DirTreeNode {
    /// An empty directory at `dirpath`.
    pub fn new(dirpath: &str) -> (r: DirTreeNode)
        ensures
            r.dirpath@ == dirpath@,
            r.files@.len() == 0,
            r.subdirs@.len() == 0,
    {
        DirTreeNode { dirpath: dirpath.to_string(), files: Vec::new(), subdirs: Vec::new() }
    }

    /// A copy of the whole tree.
    pub fn deep_copy(&self) -> (r: DirTreeNode)
        ensures
            is_copy(*self, r),
        decreases self,
    {
        let mut files: Vec<(String, FileRecord)> = Vec::new();
        let mut i: usize = 0;
        while i < self.files.len()
            invariant
                i <= self.files@.len(),
                files@ == self.files@.subrange(0, i as int),
            decreases self.files@.len() - i,
        {
            files.push((self.files[i].0.clone(), self.files[i].1.duplicate()));
            assert(files@ =~= self.files@.subrange(0, i + 1));
            i = i + 1;
        }
        assert(files@ =~= self.files@);
        let mut subdirs: Vec<(String, DirTreeNode)> = Vec::new();
        let mut k: usize = 0;
        while k < self.subdirs.len()
            invariant
                k <= self.subdirs@.len(),
                subdirs@.len() == k,
                forall|j: int| 0 <= j < k ==> {
                    &&& (#[trigger] subdirs@[j]).0 == self.subdirs@[j].0
                    &&& is_copy(self.subdirs@[j].1, subdirs@[j].1)
                },
            decreases self.subdirs@.len() - k,
        {
            let child = self.subdirs[k].1.deep_copy();
            subdirs.push((self.subdirs[k].0.clone(), child));
            k = k + 1;
        }
        DirTreeNode { dirpath: self.dirpath.clone(), files, subdirs }
    }

    /// The records of this directory alone whose names match `pattern`.
    pub fn search_files_with_names_matching_pattern(&self, pattern: &str) -> (r: Vec<FileRecord>)
        ensures
            r@ == matching_files(self.files@, pattern@),
    {
        let mut accum: Vec<FileRecord> = Vec::new();
        self.do_get_files_with_names_matching_pattern(pattern, &mut accum);
        assert(accum@ =~= matching_files(self.files@, pattern@));
        accum
    }

    /// The records of this directory and of every directory below it whose
    /// names match `pattern`.
    pub fn search_files_with_names_matching_pattern_recursive(&self, pattern: &str) -> (r: Vec<FileRecord>)
        ensures
            r@ == matching_files_below(*self, pattern@),
    {
        let mut accum: Vec<FileRecord> = Vec::new();
        self.do_get_files_with_names_matching_pattern_recursive(pattern, &mut accum);
        assert(accum@ =~= matching_files_below(*self, pattern@));
        accum
    }

    fn do_get_files_with_names_matching_pattern(&self, pattern: &str, accum: &mut Vec<FileRecord>)
        ensures
            final(accum)@ == old(accum)@ + matching_files(self.files@, pattern@),
    {
        let ghost start = accum@;
        let mut i: usize = 0;
        assert(start =~= start + matching_files(self.files@.subrange(0, 0), pattern@));
        while i < self.files.len()
            invariant
                i <= self.files@.len(),
                accum@ == start + matching_files(self.files@.subrange(0, i as int), pattern@),
            decreases self.files@.len() - i,
        {
            let ghost before = matching_files(self.files@.subrange(0, i as int), pattern@);
            assert(self.files@.subrange(0, i + 1).drop_last() =~= self.files@.subrange(0, i as int));
            if glob_match(pattern, self.files[i].0.as_str()) {
                accum.push(self.files[i].1.duplicate());
                assert((start + before).push(self.files@[i as int].1) =~= start + before.push(self.files@[i as int].1));
            }
            i = i + 1;
        }
        assert(self.files@.subrange(0, self.files@.len() as int) =~= self.files@);
    }

    fn do_get_files_with_names_matching_pattern_recursive(&self, pattern: &str, accum: &mut Vec<FileRecord>)
        ensures
            final(accum)@ == old(accum)@ + matching_files_below(*self, pattern@),
        decreases self,
    {
        let ghost start = accum@;
        self.do_get_files_with_names_matching_pattern(pattern, accum);
        let ghost own = matching_files(self.files@, pattern@);
        let mut i: usize = 0;
        assert(start + own =~= start + own + matching_files_in_subdirs(*self, pattern@, 0));
        while i < self.subdirs.len()
            invariant
                i <= self.subdirs@.len(),
                own == matching_files(self.files@, pattern@),
                accum@ == start + own + matching_files_in_subdirs(*self, pattern@, i as int),
            decreases self.subdirs@.len() - i,
        {
            let ghost before = matching_files_in_subdirs(*self, pattern@, i as int);
            self.subdirs[i].1.do_get_files_with_names_matching_pattern_recursive(pattern, accum);
            assert(start + own + before + matching_files_below(self.subdirs@[i as int].1, pattern@)
                =~= start + own + (before + matching_files_below(self.subdirs@[i as int].1, pattern@)));
            i = i + 1;
        }
        assert(start + own + matching_files_in_subdirs(*self, pattern@, self.subdirs@.len() as int)
            =~= start + matching_files_below(*self, pattern@));
    }

    /// Every file below this directory, paired with its path relative to it.
    pub fn flatten(&self) -> (r: Vec<(String, FileRecord)>)
        ensures
            lists_entries(r@, flattened(*self)),
    {
        let mut accum: Vec<(String, FileRecord)> = Vec::new();
        let prefix = String::new();
        self.do_flatten(&prefix, Ghost(Seq::empty()), &mut accum);
        assert(accum@.subrange(0, accum@.len() as int) =~= accum@);
        accum
    }

    fn do_flatten(&self, prefix: &String, Ghost(pcs): Ghost<Seq<Seq<char>>>, accum: &mut Vec<(String, FileRecord)>)
        requires
            prefix@ == join_all(pcs),
        ensures
            extends_with(old(accum)@, final(accum)@, entries_below(*self, pcs)),
        decreases self,
    {
        let ghost start = accum@;
        let mut i: usize = 0;
        while i < self.files.len()
            invariant
                prefix@ == join_all(pcs),
                i <= self.files@.len(),
                extends_with(start, accum@, file_entries(self.files@.subrange(0, i as int), pcs)),
            decreases self.files@.len() - i,
        {
            assert(self.files@.subrange(0, i + 1).drop_last() =~= self.files@.subrange(0, i as int));
            let ghost key = self.files@[i as int].0@;
            assert(pcs.push(key).drop_last() =~= pcs);
            let path = join_path(prefix.as_str(), self.files[i].0.as_str());
            let ghost prev = accum@;
            let ghost prev_es = file_entries(self.files@.subrange(0, i as int), pcs);
            accum.push((path, self.files[i].1.duplicate()));
            proof {
                let es = file_entries(self.files@.subrange(0, i + 1), pcs);
                assert(es == prev_es.push((pcs.push(key), self.files@[i as int].1)));
                assert(join_all(pcs.push(key)) == joined(join_all(pcs), key));
                let prev_tail = prev.subrange(start.len() as int, prev.len() as int);
                let tail = accum@.subrange(start.len() as int, accum@.len() as int);
                assert forall|j: int| 0 <= j < tail.len() implies (#[trigger] tail[j]).0@ == join_all(es[j].0) && tail[j].1 == es[j].1 by {
                    if j < tail.len() - 1 {
                        assert(tail[j] == prev_tail[j]);
                    }
                }
            }
            i = i + 1;
        }
        assert(self.files@.subrange(0, self.files@.len() as int) =~= self.files@);
        let ghost own = file_entries(self.files@, pcs);
        let mut k: usize = 0;
        assert(own =~= own + entries_in_subdirs(*self, pcs, 0));
        while k < self.subdirs.len()
            invariant
                prefix@ == join_all(pcs),
                k <= self.subdirs@.len(),
                own == file_entries(self.files@, pcs),
                extends_with(start, accum@, own + entries_in_subdirs(*self, pcs, k as int)),
            decreases self.subdirs@.len() - k,
        {
            let ghost key = self.subdirs@[k as int].0@;
            assert(pcs.push(key).drop_last() =~= pcs);
            let child_prefix = join_path(prefix.as_str(), self.subdirs[k].0.as_str());
            let ghost mid = accum@;
            self.subdirs[k].1.do_flatten(&child_prefix, Ghost(pcs.push(key)), accum);
            proof {
                let before = own + entries_in_subdirs(*self, pcs, k as int);
                let added = entries_below(self.subdirs@[k as int].1, pcs.push(key));
                assert(own + entries_in_subdirs(*self, pcs, k + 1) =~= before + added);
                lemma_extends_chain(start, mid, accum@, before, added);
            }
            k = k + 1;
        }
        assert(own + entries_in_subdirs(*self, pcs, self.subdirs@.len() as int) =~= entries_below(*self, pcs));
    }

    /// The entries of the flattening whose full relative paths match
    /// `pattern`.
    pub fn glob(&self, pattern: &str) -> (r: Vec<(String, FileRecord)>)
        ensures
            lists_entries(r@, entries_matching(flattened(*self), pattern@)),
    {
        let flat = self.flatten();
        let ghost es = flattened(*self);
        let mut out: Vec<(String, FileRecord)> = Vec::new();
        let mut i: usize = 0;
        while i < flat.len()
            invariant
                i <= flat@.len(),
                lists_entries(flat@, es),
                lists_entries(out@, entries_matching(es.subrange(0, i as int), pattern@)),
            decreases flat@.len() - i,
        {
            assert(es.subrange(0, i + 1).drop_last() =~= es.subrange(0, i as int));
            if glob_match(pattern, flat[i].0.as_str()) {
                out.push((flat[i].0.clone(), flat[i].1.duplicate()));
            }
            i = i + 1;
        }
        assert(es.subrange(0, es.len() as int) =~= es);
        out
    }

    /// What `dirpath` leads to inside this tree. All components but the last
    /// are followed through subdirectories; the last names a file of the
    /// directory reached, or else one of its subdirectories. A path with no
    /// components, one whose last component is `.` or `..`, or one that
    /// leaves the tree, leads nowhere.
    pub fn get_at_path(&self, dirpath: &str) -> (r: Option<CursorIntoItem<'_>>)
        ensures
            r matches Some(CursorIntoItem::File(f)) ==> file_at(*self, segments(dirpath@)) == Some(*f),
            r matches Some(CursorIntoItem::Dir(d)) ==> {
                &&& segments(dirpath@).len() > 0
                &&& file_at(*self, segments(dirpath@)) is None
                &&& node_at(*self, segments(dirpath@)) == Some(*d)
            },
            r is None ==> {
                ||| segments(dirpath@).len() == 0
                ||| !is_component(segments(dirpath@).last())
                ||| file_at(*self, segments(dirpath@)) is None && node_at(*self, segments(dirpath@)) is None
            },
            segments(dirpath@).len() == 0 ==> r is None,
            segments(dirpath@).len() > 0 && !is_component(segments(dirpath@).last()) ==> r is None,
    {
        let comps = path_components(dirpath);
        let ghost cs = segments(dirpath@);
        let n = comps.len();
        if n == 0 {
            return None;
        }
        if !is_path_component(comps[n - 1].as_str()) {
            assert(comps@[n - 1]@ == cs.last());
            return None;
        }
        let mut cur: &DirTreeNode = self;
        let mut i: usize = 0;
        while i < n - 1
            invariant
                cs == segments(dirpath@),
                n == comps@.len(),
                n == cs.len(),
                n > 0,
                i <= n - 1,
                forall|j: int| 0 <= j < n ==> #[trigger] comps@[j]@ == cs[j],
                node_at(*self, cs.subrange(0, i as int)) == Some(*cur),
            decreases n - 1 - i,
        {
            assert(cs.subrange(0, i + 1).drop_last() =~= cs.subrange(0, i as int));
            match find_named(&cur.subdirs, &comps[i]) {
                Some(c) => {
                    cur = c;
                },
                None => {
                    proof {
                        let k = (i + 1) as int;
                        assert(cs.subrange(0, k).last() == cs[i as int]);
                        assert(node_at(*self, cs.subrange(0, k)) is None);
                        lemma_node_at_stays_out(*self, cs, k, n - 1);
                        assert(cs.subrange(0, n - 1) =~= cs.drop_last());
                        assert(cs.subrange(0, n as int) =~= cs);
                        lemma_node_at_stays_out(*self, cs, k, n as int);
                        assert(node_at(*self, cs.drop_last()) is None);
                        assert(file_at(*self, cs) is None);
                        assert(node_at(*self, cs) is None);
                    }
                    return None;
                },
            }
            i = i + 1;
        }
        assert(cs.subrange(0, n - 1) =~= cs.drop_last());
        match find_named(&cur.files, &comps[n - 1]) {
            Some(f) => Some(CursorIntoItem::File(f)),
            None => match find_named(&cur.subdirs, &comps[n - 1]) {
                Some(d) => Some(CursorIntoItem::Dir(d)),
                None => None,
            },
        }
    }
}

/// With unique keys, the entry found under a key is the one that has it.
proof fn lemma_named_unique<V>(s: Seq<(String, V)>, i: int)
    requires
        keys_unique(s),
        0 <= i < s.len(),
    ensures
        named(s, s[i].0@) == Some(s[i].1),
    decreases s.len(),
{
    if i > 0 {
        assert(s[0].0@ != s[i].0@);
        let rest = s.drop_first();
        assert(rest[i - 1] == s[i]);
        lemma_named_unique(rest, i - 1);
    }
}

/// Following `k` and then `ds` from `t` is following `ds` from the
/// subdirectory named `k`.
proof fn lemma_node_at_through(t: DirTreeNode, k: Seq<char>, c: DirTreeNode, ds: Seq<Seq<char>>)
    requires
        named(t.subdirs@, k) == Some(c),
    ensures
        node_at(t, seq![k] + ds) == node_at(c, ds),
    decreases ds.len(),
{
    if ds.len() == 0 {
        assert(seq![k] + ds =~= seq![k]);
        assert(seq![k].drop_last() =~= Seq::<Seq<char>>::empty());
    } else {
        assert((seq![k] + ds).drop_last() =~= seq![k] + ds.drop_last());
        assert((seq![k] + ds).last() == ds.last());
        lemma_node_at_through(t, k, c, ds.drop_last());
        assert(node_at(t, seq![k] + ds) == match node_at(t, seq![k] + ds.drop_last()) {
            Some(n) => named(n.subdirs@, ds.last()),
            None => None,
        });
    }
}

/// The file entries of `files` are its files in order, each after `pcs`.
proof fn lemma_file_entries(files: Seq<(String, FileRecord)>, pcs: Seq<Seq<char>>)
    ensures
        file_entries(files, pcs).len() == files.len(),
        forall|j: int| 0 <= j < files.len() ==> #[trigger] file_entries(files, pcs)[j] == (pcs.push(files[j].0@), files[j].1),
    decreases files.len(),
{
    if files.len() > 0 {
        lemma_file_entries(files.drop_last(), pcs);
    }
}

/// What an entry of a well formed tree says of its file: its components
/// start with `pcs`, and the rest are names that lead to the file in `t`.
pub open spec fn entry_leads_to_file(t: DirTreeNode, pcs: Seq<Seq<char>>, e: (Seq<Seq<char>>, FileRecord)) -> bool {
    &&& e.0.len() > pcs.len()
    &&& e.0.subrange(0, pcs.len() as int) == pcs
    &&& file_at(t, e.0.subrange(pcs.len() as int, e.0.len() as int)) == Some(e.1)
    &&& forall|i: int| pcs.len() <= i < e.0.len() ==> is_component(#[trigger] e.0[i])
}

proof fn lemma_entries_below(t: DirTreeNode, pcs: Seq<Seq<char>>)
    requires
        well_formed(t),
    ensures
        forall|j: int| 0 <= j < entries_below(t, pcs).len() ==> entry_leads_to_file(t, pcs, #[trigger] entries_below(t, pcs)[j]),
    decreases t, t.subdirs@.len() + 1,
{
    let own = file_entries(t.files@, pcs);
    let subs = entries_in_subdirs(t, pcs, t.subdirs@.len() as int);
    lemma_file_entries(t.files@, pcs);
    lemma_entries_in_subdirs(t, pcs, t.subdirs@.len() as int);
    assert forall|j: int| 0 <= j < entries_below(t, pcs).len() implies entry_leads_to_file(t, pcs, #[trigger] entries_below(t, pcs)[j]) by {
        let e = entries_below(t, pcs)[j];
        if j < own.len() {
            assert(e == own[j]);
            let name = t.files@[j].0@;
            assert(e.0 == pcs.push(name));
            let rel = e.0.subrange(pcs.len() as int, e.0.len() as int);
            assert(rel =~= seq![name]);
            assert(e.0.subrange(0, pcs.len() as int) =~= pcs);
            assert(rel.drop_last() =~= Seq::<Seq<char>>::empty());
            lemma_named_unique(t.files@, j);
            assert(is_component(t.files@[j].0@));
        } else {
            assert(e == subs[j - own.len()]);
        }
    }
}

proof fn lemma_entries_in_subdirs(t: DirTreeNode, pcs: Seq<Seq<char>>, n: int)
    requires
        well_formed(t),
        0 <= n <= t.subdirs@.len(),
    ensures
        forall|j: int| 0 <= j < entries_in_subdirs(t, pcs, n).len() ==> entry_leads_to_file(t, pcs, #[trigger] entries_in_subdirs(t, pcs, n)[j]),
    decreases t, n,
{
    if n > 0 {
        let before = entries_in_subdirs(t, pcs, n - 1);
        let key = t.subdirs@[n - 1].0@;
        let c = t.subdirs@[n - 1].1;
        let added = entries_below(c, pcs.push(key));
        lemma_entries_in_subdirs(t, pcs, n - 1);
        assert(well_formed(c));
        lemma_entries_below(c, pcs.push(key));
        lemma_named_unique(t.subdirs@, n - 1);
        assert(is_component(t.subdirs@[n - 1].0@));
        assert forall|j: int| 0 <= j < entries_in_subdirs(t, pcs, n).len() implies entry_leads_to_file(t, pcs, #[trigger] entries_in_subdirs(t, pcs, n)[j]) by {
            let e = entries_in_subdirs(t, pcs, n)[j];
            if j < before.len() {
                assert(e == before[j]);
            } else {
                let m = pcs.len() as int;
                assert(e == added[j - before.len()]);
                assert(entry_leads_to_file(c, pcs.push(key), e));
                let cs = e.0;
                let inner = cs.subrange(m + 1, cs.len() as int);
                let rel = cs.subrange(m, cs.len() as int);
                assert(cs.subrange(0, m + 1) == pcs.push(key));
                assert(cs[m] == key) by {
                    assert(cs.subrange(0, m + 1)[m] == cs[m]);
                }
                assert(cs.subrange(0, m) =~= pcs) by {
                    assert forall|i: int| 0 <= i < m implies cs[i] == pcs[i] by {
                        assert(cs.subrange(0, m + 1)[i] == cs[i]);
                    }
                }
                assert(rel =~= seq![key] + inner);
                assert(rel.drop_last() =~= seq![key] + inner.drop_last());
                lemma_node_at_through(t, key, c, inner.drop_last());
                assert(file_at(t, rel) == file_at(c, inner));
                assert forall|i: int| m <= i < cs.len() implies is_component(#[trigger] cs[i]) by {
                    if i == m {
                        assert(cs[m] == key);
                    }
                }
            }
        }
    }
}

/// Lookup after flattening: in a well formed tree, the path of every entry
/// of the flattening leads back to that entry's file.
pub proof fn flattened_paths_lead_to_their_files(t: DirTreeNode, i: int)
    requires
        well_formed(t),
        0 <= i < flattened(t).len(),
    ensures
        file_at(t, segments(join_all(flattened(t)[i].0))) == Some(flattened(t)[i].1),
{
    let e = flattened(t)[i];
    lemma_entries_below(t, Seq::empty());
    assert(entry_leads_to_file(t, Seq::empty(), e));
    assert(e.0.subrange(0, e.0.len() as int) =~= e.0);
    lemma_segments_of_join_all(e.0);
}

/// How many files below the first `n` subdirectories of `t` match `pattern`.
pub open spec fn matches_in_subdirs_count(t: DirTreeNode, pattern: Seq<char>, n: int) -> nat
    decreases n,
{
    if n <= 0 || n > t.subdirs@.len() {
        0
    } else {
        matches_in_subdirs_count(t, pattern, n - 1) + matching_files_below(t.subdirs@[n - 1].1, pattern).len()
    }
}

proof fn lemma_matches_in_subdirs_count(t: DirTreeNode, pattern: Seq<char>, n: int)
    requires
        0 <= n <= t.subdirs@.len(),
    ensures
        matching_files_in_subdirs(t, pattern, n).len() == matches_in_subdirs_count(t, pattern, n),
    decreases n,
{
    if n > 0 {
        lemma_matches_in_subdirs_count(t, pattern, n - 1);
    }
}

/// Recursive search counts: the recursive search finds the matches of the
/// directory itself and, besides them, exactly the matches below each of its
/// subdirectories.
pub proof fn recursive_search_counts(t: DirTreeNode, pattern: Seq<char>)
    ensures
        matching_files_below(t, pattern).len() == matching_files(t.files@, pattern).len()
            + matches_in_subdirs_count(t, pattern, t.subdirs@.len() as int),
{
    lemma_matches_in_subdirs_count(t, pattern, t.subdirs@.len() as int);
}

/// The entries of `es` that match `pattern` all come from `es`, and are no
/// more than it has.
proof fn lemma_matching_within(es: Seq<(Seq<Seq<char>>, FileRecord)>, pattern: Seq<char>)
    ensures
        entries_matching(es, pattern).len() <= es.len(),
        forall|x: (Seq<Seq<char>>, FileRecord)| #[trigger] entries_matching(es, pattern).contains(x) ==> es.contains(x),
    decreases es.len(),
{
    if es.len() > 0 {
        let rest = es.drop_last();
        lemma_matching_within(rest, pattern);
        assert forall|x: (Seq<Seq<char>>, FileRecord)| entries_matching(es, pattern).contains(x) implies es.contains(x) by {
            let m = entries_matching(es, pattern);
            let k = choose|k: int| 0 <= k < m.len() && m[k] == x;
            if k < entries_matching(rest, pattern).len() {
                assert(entries_matching(rest, pattern)[k] == x);
                assert(entries_matching(rest, pattern).contains(x));
                assert(rest.contains(x));
                let r = choose|r: int| 0 <= r < rest.len() && rest[r] == x;
                assert(es[r] == x);
            } else {
                assert(x == es.last());
                assert(es[es.len() - 1] == x);
            }
        }
    }
}

/// Glob within flatten: every entry that `glob` gives is an entry of the
/// flattening, and there are no more of them than in the flattening.
pub proof fn glob_is_within_flatten(t: DirTreeNode, pattern: Seq<char>)
    ensures
        entries_matching(flattened(t), pattern).len() <= flattened(t).len(),
        forall|x: (Seq<Seq<char>>, FileRecord)| #[trigger] entries_matching(flattened(t), pattern).contains(x) ==> flattened(t).contains(x),
{
    lemma_matching_within(flattened(t), pattern);
}

/// A pattern that matches every path of the flattening is a catch-all:
/// `glob` with it gives the whole flattening, of the same length.
pub proof fn catch_all_glob_is_flatten(t: DirTreeNode, pattern: Seq<char>)
    requires
        forall|i: int| 0 <= i < flattened(t).len() ==> glob_matches(pattern, join_all(#[trigger] flattened(t)[i].0)),
    ensures
        entries_matching(flattened(t), pattern) == flattened(t),
{
    lemma_matching_all(flattened(t), pattern);
}

proof fn lemma_matching_all(es: Seq<(Seq<Seq<char>>, FileRecord)>, pattern: Seq<char>)
    requires
        forall|i: int| 0 <= i < es.len() ==> glob_matches(pattern, join_all(#[trigger] es[i].0)),
    ensures
        entries_matching(es, pattern) == es,
    decreases es.len(),
{
    if es.len() > 0 {
        let rest = es.drop_last();
        assert forall|i: int| 0 <= i < rest.len() implies glob_matches(pattern, join_all(#[trigger] rest[i].0)) by {
            assert(rest[i] == es[i]);
        }
        lemma_matching_all(rest, pattern);
        assert(glob_matches(pattern, join_all(es[es.len() - 1].0)));
        assert(rest.push(es.last()) =~= es);
    }
}

/// Appending two listings one after the other appends the entries listed.
proof fn lemma_extends_chain(
    a: Seq<(String, FileRecord)>,
    b: Seq<(String, FileRecord)>,
    c: Seq<(String, FileRecord)>,
    e1: Seq<(Seq<Seq<char>>, FileRecord)>,
    e2: Seq<(Seq<Seq<char>>, FileRecord)>,
)
    requires
        extends_with(a, b, e1),
        extends_with(b, c, e2),
    ensures
        extends_with(a, c, e1 + e2),
{
    let t1 = b.subrange(a.len() as int, b.len() as int);
    let t2 = c.subrange(b.len() as int, c.len() as int);
    let t = c.subrange(a.len() as int, c.len() as int);
    assert forall|i: int| 0 <= i < t.len() implies (#[trigger] t[i]).0@ == join_all((e1 + e2)[i].0) && t[i].1 == (e1 + e2)[i].1 by {
        if i < e1.len() {
            assert(t[i] == t1[i]);
        } else {
            assert(t[i] == t2[i - e1.len()]);
        }
    }
}

/// Once a prefix of `cs` leaves the tree, every longer prefix does too.
proof fn lemma_node_at_stays_out(t: DirTreeNode, cs: Seq<Seq<char>>, k: int, m: int)
    requires
        0 <= k <= m <= cs.len(),
        node_at(t, cs.subrange(0, k)) is None,
    ensures
        node_at(t, cs.subrange(0, m)) is None,
    decreases m - k,
{
    if m > k {
        lemma_node_at_stays_out(t, cs, k, m - 1);
        assert(cs.subrange(0, m).drop_last() =~= cs.subrange(0, m - 1));
    }
}

impl Clone for DirTreeNode {
    fn clone(&self) -> Self {
        self.deep_copy()
    }
}

} // verus!
