use vstd::prelude::*;

use crate::path::{path_less, path_lt, lemma_path_lt_irreflexive, lemma_path_lt_total, lemma_path_lt_transitive};

verus! {

/// The cheap stand-in for a file's identity: its size and the time it was
/// last modified, in nanoseconds since the Unix epoch.
#[derive(PartialEq, Eq, Structural, Clone, Copy, Debug, Hash)]
pub struct Metadata {
    pub size: u64,
    pub modified: u128,
}

/// One file of a snapshot, by its path relative to the snapshot's root.
#[derive(Clone, Debug)]
pub struct FileEntry {
    pub path: String,
    pub meta: Metadata,
}

/// What a walk over a tree found at one path.
#[derive(Clone, Copy, Debug, PartialEq, Eq, Structural)]
pub enum EntryKind {
    Directory,
    Symlink,
    File { size: u64, modified: u128 },
    /// Anything else: a socket, a device, a pipe.
    Special,
}

/// An inventory of the files under one root: the root, the smallest size that
/// is recorded, and the files, kept sorted by path with each path once.
#[derive(Debug)]
pub struct Summary {
    pub base_dir: String,
    pub min_file_bytes: u64,
    pub files: Vec<FileEntry>,
}

pub type Entries = Seq<(Seq<char>, Metadata)>;

pub open spec fn entry_view(e: FileEntry) -> (Seq<char>, Metadata) {
    (e.path@, e.meta)
}

pub open spec fn entries_of(files: Seq<FileEntry>) -> Entries {
    files.map_values(|e: FileEntry| entry_view(e))
}

pub open spec fn has_path(es: Entries, p: Seq<char>) -> bool {
    exists|i: int| 0 <= i < es.len() && #[trigger] es[i].0 == p
}

/// Strictly increasing paths: the order in which a snapshot lists its files.
pub open spec fn sorted_paths(es: Entries) -> bool {
    forall|i: int, j: int| 0 <= i < j < es.len() ==> path_lt(#[trigger] es[i].0, #[trigger] es[j].0)
}

pub open spec fn unique_paths(es: Entries) -> bool {
    forall|i: int, j: int| 0 <= i < es.len() && 0 <= j < es.len() && i != j ==> #[trigger] es[i].0 != #[trigger] es[j].0
}

/// The files of a listing as a map from relative path to fingerprint.
pub open spec fn files_map(es: Entries) -> Map<Seq<char>, Metadata> {
    Map::new(
        |p: Seq<char>| has_path(es, p),
        |p: Seq<char>| es[choose|i: int| 0 <= i < es.len() && es[i].0 == p].1,
    )
}

pub proof fn lemma_sorted_unique(es: Entries)
    requires
        sorted_paths(es),
    ensures
        unique_paths(es),
{
    assert forall|i: int, j: int| 0 <= i < es.len() && 0 <= j < es.len() && i != j implies #[trigger] es[i].0 != #[trigger] es[j].0 by {
        lemma_path_lt_irreflexive(es[i].0);
        if i < j {
            assert(path_lt(es[i].0, es[j].0));
        } else {
            assert(path_lt(es[j].0, es[i].0));
        }
    }
}

/// With each path once, the map gives each listed path its own fingerprint.
proof fn lemma_files_map_at(es: Entries, i: int)
    requires
        unique_paths(es),
        0 <= i < es.len(),
    ensures
        files_map(es).contains_key(es[i].0),
        files_map(es)[es[i].0] == es[i].1,
{
    assert(has_path(es, es[i].0));
    let k = choose|k: int| 0 <= k < es.len() && es[k].0 == es[i].0;
    assert(k == i);
}

proof fn lemma_files_map_drop_last(es: Entries)
    requires
        unique_paths(es),
        es.len() > 0,
    ensures
        files_map(es.drop_last()) == files_map(es).remove(es.last().0),
{
    let short = es.drop_last();
    assert(unique_paths(short));
    assert forall|p: Seq<char>| #[trigger] files_map(short).contains_key(p) <==> files_map(es).remove(es.last().0).contains_key(p) by {
        if has_path(short, p) {
            let i = choose|i: int| 0 <= i < short.len() && short[i].0 == p;
            assert(es[i].0 == p);
        }
        if has_path(es, p) && p != es.last().0 {
            let i = choose|i: int| 0 <= i < es.len() && es[i].0 == p;
            assert(short[i].0 == p);
        }
    }
    assert forall|p: Seq<char>| #[trigger] files_map(short).contains_key(p) implies files_map(short)[p] == files_map(es)[p] by {
        let i = choose|i: int| 0 <= i < short.len() && short[i].0 == p;
        lemma_files_map_at(short, i);
        lemma_files_map_at(es, i);
    }
    assert(files_map(short) =~= files_map(es).remove(es.last().0));
}

proof fn lemma_sorted_canonical(x: Entries, y: Entries)
    requires
        sorted_paths(x),
        sorted_paths(y),
        files_map(x) == files_map(y),
    ensures
        x == y,
    decreases x.len(),
{
    lemma_sorted_unique(x);
    lemma_sorted_unique(y);
    if x.len() == 0 || y.len() == 0 {
        if y.len() > 0 {
            assert(files_map(y).contains_key(y[0].0));
        }
        if x.len() > 0 {
            assert(files_map(x).contains_key(x[0].0));
        }
        assert(x =~= y);
    } else {
        let lx = x.last();
        let ly = y.last();
        lemma_files_map_at(x, x.len() - 1);
        lemma_files_map_at(y, y.len() - 1);
        let j = choose|j: int| 0 <= j < y.len() && y[j].0 == lx.0;
        let i = choose|i: int| 0 <= i < x.len() && x[i].0 == ly.0;
        if lx.0 != ly.0 {
            assert(j != y.len() - 1);
            assert(i != x.len() - 1);
            assert(path_lt(lx.0, ly.0));
            assert(path_lt(ly.0, lx.0));
            lemma_path_lt_transitive(lx.0, ly.0, lx.0);
            lemma_path_lt_irreflexive(lx.0);
        }
        lemma_files_map_drop_last(x);
        lemma_files_map_drop_last(y);
        lemma_sorted_canonical(x.drop_last(), y.drop_last());
        assert(x =~= x.drop_last().push(lx));
        assert(y =~= y.drop_last().push(ly));
    }
}

/// A listing is fixed by the files it holds: two snapshots with the same
/// files list them in the same order, so walking an unchanged tree twice
/// gives the same listing, whatever order the walk found the files in.
pub proof fn lemma_canonical(a: Summary, b: Summary)
    requires
        a.wf(),
        b.wf(),
        a.files_view() == b.files_view(),
    ensures
        a.entries() == b.entries(),
{
    lemma_sorted_canonical(a.entries(), b.entries());
}

/// The first position in the sorted `files` whose path does not come
/// before `p`.
fn lower_bound(files: &Vec<FileEntry>, p: &str) -> (k: usize)
    requires
        sorted_paths(entries_of(files@)),
    ensures
        k <= files.len(),
        forall|t: int| 0 <= t < k ==> path_lt(#[trigger] entries_of(files@)[t].0, p@),
        k < files.len() ==> !path_lt(entries_of(files@)[k as int].0, p@),
{
    let ghost es = entries_of(files@);
    let mut lo: usize = 0;
    let mut hi: usize = files.len();
    while lo < hi
        invariant
            lo <= hi <= files.len(),
            es == entries_of(files@),
            sorted_paths(es),
            forall|t: int| 0 <= t < lo ==> path_lt(#[trigger] es[t].0, p@),
            forall|t: int| hi <= t < es.len() ==> !path_lt(#[trigger] es[t].0, p@),
        decreases hi - lo,
    {
        let mid = lo + (hi - lo) / 2;
        assert(es[mid as int].0 == files@[mid as int].path@);
        if path_less(files[mid].path.as_str(), p) {
            assert forall|t: int| 0 <= t <= mid implies path_lt(#[trigger] es[t].0, p@) by {
                if t < mid {
                    lemma_path_lt_transitive(es[t].0, es[mid as int].0, p@);
                }
            }
            lo = mid + 1;
        } else {
            assert forall|t: int| mid <= t < es.len() implies !path_lt(#[trigger] es[t].0, p@) by {
                if t > mid && path_lt(es[t].0, p@) {
                    lemma_path_lt_transitive(es[mid as int].0, es[t].0, p@);
                }
            }
            hi = mid;
        }
    }
    lo
}

/// Whether the sorted `files` list `p`.
pub fn contains_path(files: &Vec<FileEntry>, p: &String) -> (r: bool)
    requires
        sorted_paths(entries_of(files@)),
    ensures
        r == has_path(entries_of(files@), p@),
{
    let ghost es = entries_of(files@);
    let k = lower_bound(files, p.as_str());
    let found = k < files.len() && files[k].path == *p;
    if !found {
        assert forall|t: int| 0 <= t < es.len() implies #[trigger] es[t].0 != p@ by {
            lemma_path_lt_irreflexive(p@);
            if t >= k {
                lemma_path_lt_total(es[k as int].0, p@);
                if t > k {
                    lemma_path_lt_transitive(p@, es[k as int].0, es[t].0);
                }
            }
        }
    }
    found
}

impl Summary {
    pub open spec fn entries(&self) -> Entries {
        entries_of(self.files@)
    }

    pub open spec fn wf(&self) -> bool {
        sorted_paths(self.entries())
    }

    pub open spec fn files_view(&self) -> Map<Seq<char>, Metadata> {
        files_map(self.entries())
    }

    /// The files after a file at `path` of the given size and time was
    /// offered: recorded under its path below the root when it is large
    /// enough, else left out.
    pub open spec fn files_after(&self, path: Seq<char>, size: u64, modified: u128) -> Map<Seq<char>, Metadata> {
        if size < self.min_file_bytes {
            self.files_view()
        } else {
            self.files_view().insert(path.skip(self.base_dir@.len() as int), Metadata { size, modified })
        }
    }

    /// An empty inventory of the tree under `base_dir`.
    pub fn new(base_dir: &str, min_file_bytes: u64) -> (r: Summary)
        ensures
            r.wf(),
            r.base_dir@ == base_dir@,
            r.min_file_bytes == min_file_bytes,
            r.entries().len() == 0,
    {
        let r = Summary { base_dir: base_dir.to_owned(), min_file_bytes, files: Vec::new() };
        assert(r.entries() =~= Seq::<(Seq<char>, Metadata)>::empty());
        r
    }

    /// Records `meta` for the relative path `path`; an entry already there is
    /// replaced, so the later of two records for one path wins.
    pub fn insert_relative(&mut self, path: String, meta: Metadata)
        requires
            old(self).wf(),
        ensures
            final(self).wf(),
            final(self).base_dir == old(self).base_dir,
            final(self).min_file_bytes == old(self).min_file_bytes,
            final(self).files_view() == old(self).files_view().insert(path@, meta),
    {
        let ghost es = self.entries();
        let n = self.files.len();
        let k = lower_bound(&self.files, path.as_str());
        proof {
            lemma_sorted_unique(es);
        }
        let replace = k < n && self.files[k].path == path;
        let ghost p = path@;
        let entry = FileEntry { path, meta };
        if replace {
            self.files.set(k, entry);
            let ghost es2 = self.entries();
            assert(es2 =~= es.update(k as int, (p, meta)));
            assert forall|i: int| 0 <= i < es.len() implies #[trigger] es2[i].0 == es[i].0 by {}
        } else {
            self.files.insert(k, entry);
            let ghost es2 = self.entries();
            assert(es2 =~= es.insert(k as int, (p, meta)));
            assert forall|i: int, j: int| 0 <= i < j < es2.len() implies path_lt(#[trigger] es2[i].0, #[trigger] es2[j].0) by {
                if i < k && j == k {
                } else if i == k && j > k {
                    lemma_path_lt_total(es[k as int].0, p);
                    if j > k + 1 {
                        lemma_path_lt_transitive(p, es[k as int].0, es[j - 1].0);
                    }
                } else if i < k && j > k {
                } else {
                }
            }
        }
        let ghost es2 = self.entries();
        proof {
            lemma_sorted_unique(es2);
            assert(files_map(es2) =~= files_map(es).insert(p, meta)) by {
                assert forall|q: Seq<char>| #[trigger] files_map(es2).contains_key(q) <==> files_map(es).insert(p, meta).contains_key(q) by {
                    if has_path(es, q) {
                        let i = choose|i: int| 0 <= i < es.len() && es[i].0 == q;
                        if replace {
                            assert(es2[i].0 == q);
                        } else if i < k {
                            assert(es2[i].0 == q);
                        } else {
                            assert(es2[i + 1].0 == q);
                        }
                    }
                    if has_path(es2, q) && q != p {
                        let i = choose|i: int| 0 <= i < es2.len() && es2[i].0 == q;
                        if replace {
                            assert(es[i].0 == q);
                        } else if i < k {
                            assert(es[i].0 == q);
                        } else {
                            assert(i != k);
                            assert(es[i - 1].0 == q);
                        }
                    }
                    assert(es2[k as int].0 == p);
                }
                assert forall|q: Seq<char>| #[trigger] files_map(es2).contains_key(q) implies files_map(es2)[q] == files_map(es).insert(p, meta)[q] by {
                    let i2 = choose|i: int| 0 <= i < es2.len() && es2[i].0 == q;
                    lemma_files_map_at(es2, i2);
                    if q != p {
                        let i = if replace || i2 < k { i2 } else { i2 - 1 };
                        assert(i2 != k);
                        assert(es[i] == es2[i2]);
                        lemma_files_map_at(es, i);
                    } else {
                        lemma_files_map_at(es2, k as int);
                    }
                }
            }
        }
    }

    /// Offers the file at `path`, which lies under the root: it is recorded
    /// under its path relative to the root unless it is smaller than the
    /// threshold.
    pub fn add_file(&mut self, path: String, size: u64, modified: u128)
        requires
            old(self).wf(),
            size < old(self).min_file_bytes || old(self).base_dir@.is_prefix_of(path@),
        ensures
            final(self).wf(),
            final(self).base_dir == old(self).base_dir,
            final(self).min_file_bytes == old(self).min_file_bytes,
            final(self).files_view() == old(self).files_after(path@, size, modified),
    {
        if size < self.min_file_bytes {
            return;
        }
        let lb = self.base_dir.as_str().unicode_len();
        let lp = path.as_str().unicode_len();
        let relative = path.as_str().substring_char(lb, lp).to_owned();
        assert(relative@ =~= path@.skip(lb as int));
        self.insert_relative(relative, Metadata { size, modified });
    }

    /// Takes in one entry that a walk over the tree found, and says whether
    /// the walk goes down into it. Only regular files are recorded: a symbolic
    /// link is neither followed nor recorded.
    pub fn visit(&mut self, path: String, kind: EntryKind) -> (descend: bool)
        requires
            old(self).wf(),
            kind matches EntryKind::File { size, .. } ==> size < old(self).min_file_bytes
                || old(self).base_dir@.is_prefix_of(path@),
        ensures
            descend == (kind is Directory),
            final(self).wf(),
            final(self).base_dir == old(self).base_dir,
            final(self).min_file_bytes == old(self).min_file_bytes,
            final(self).files_view() == match kind {
                EntryKind::File { size, modified } => old(self).files_after(path@, size, modified),
                _ => old(self).files_view(),
            },
    {
        match kind {
            EntryKind::Directory => true,
            EntryKind::File { size, modified } => {
                self.add_file(path, size, modified);
                false
            },
            _ => false,
        }
    }
}

} // verus!
