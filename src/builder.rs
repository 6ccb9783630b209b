use vstd::prelude::*;

use crate::path::{normalize_base_dir, with_separator};
use crate::snapshot::{EntryKind, Summary};

verus! {

/// The state of a walk over a tree: the snapshot so far and the directories
/// still to be read, the last one first.
#[derive(Debug)]
pub struct SnapshotBuilder {
    pub summary: Summary,
    pub pending: Vec<String>,
}

pub open spec fn views(dirs: Seq<String>) -> Seq<Seq<char>> {
    dirs.map_values(|d: String| d@)
}

impl SnapshotBuilder {
    /// Starts a walk at `root`, which is read first and whose path, with a
    /// trailing separator, is stripped from every recorded file.
    pub fn new(root: &str, min_file_bytes: u64) -> (r: SnapshotBuilder)
        ensures
            r.summary.wf(),
            r.summary.base_dir@ == with_separator(root@),
            r.summary.min_file_bytes == min_file_bytes,
            r.summary.entries().len() == 0,
            views(r.pending@) == seq![with_separator(root@)],
    {
        let base = normalize_base_dir(root);
        let summary = Summary::new(base.as_str(), min_file_bytes);
        let mut pending: Vec<String> = Vec::new();
        pending.push(base);
        let r = SnapshotBuilder { summary, pending };
        assert(views(r.pending@) =~= seq![with_separator(root@)]);
        r
    }

    /// The next directory to read, taken off the stack; `None` when the walk
    /// is over.
    pub fn next_dir(&mut self) -> (r: Option<String>)
        ensures
            final(self).summary == old(self).summary,
            old(self).pending.len() == 0 ==> r is None && final(self).pending@ == old(self).pending@,
            old(self).pending.len() > 0 ==> r == Some(old(self).pending@.last())
                && final(self).pending@ == old(self).pending@.drop_last(),
    {
        self.pending.pop()
    }

    /// Takes in one entry of a directory being read: a directory is put on
    /// the stack, a file goes to the snapshot, anything else is passed over.
    pub fn visit(&mut self, path: String, kind: EntryKind)
        requires
            old(self).summary.wf(),
            kind matches EntryKind::File { size, .. } ==> size < old(self).summary.min_file_bytes
                || old(self).summary.base_dir@.is_prefix_of(path@),
        ensures
            final(self).summary.wf(),
            final(self).summary.base_dir == old(self).summary.base_dir,
            final(self).summary.min_file_bytes == old(self).summary.min_file_bytes,
            final(self).summary.files_view() == match kind {
                EntryKind::File { size, modified } => old(self).summary.files_after(path@, size, modified),
                _ => old(self).summary.files_view(),
            },
            views(final(self).pending@) == if kind is Directory {
                views(old(self).pending@).push(path@)
            } else {
                views(old(self).pending@)
            },
    {
        let ghost p = path@;
        let keep = path.clone();
        if self.summary.visit(path, kind) {
            self.pending.push(keep);
            assert(views(self.pending@) =~= views(old(self).pending@).push(p));
        }
    }

    /// The snapshot that the walk built.
    pub fn finish(self) -> (r: Summary)
        ensures
            r == self.summary,
    {
        self.summary
    }
}

} // verus!
