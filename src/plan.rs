use std::collections::HashMap;
use vstd::prelude::*;

use crate::snapshot::{contains_path, entries_of, has_path, lemma_sorted_unique, Entries, FileEntry, Metadata, Summary};

verus! {

broadcast use vstd::std_specs::hash::group_hash_axioms;

/// A relocation inside the destination tree, both paths below its root.
#[derive(Clone, Debug)]
pub struct Move {
    pub from: String,
    pub to: String,
}

impl View for Move {
    type V = (Seq<char>, Seq<char>);

    open spec fn view(&self) -> (Seq<char>, Seq<char>) {
        (self.from@, self.to@)
    }
}

/// Something that planning resolved by its own rules and reports.
#[derive(Debug)]
pub enum Notice {
    /// Two destination files share a fingerprint: only the later one, `kept`,
    /// may still be moved.
    DuplicateFingerprint { replaced: String, kept: String },
    /// The destination file `from` would also fit `to`, but is already moved
    /// to `moved_to`.
    AlreadyMoved { from: String, to: String, moved_to: String },
}

pub enum NoticeView {
    DuplicateFingerprint { replaced: Seq<char>, kept: Seq<char> },
    AlreadyMoved { from: Seq<char>, to: Seq<char>, moved_to: Seq<char> },
}

impl View for Notice {
    type V = NoticeView;

    open spec fn view(&self) -> NoticeView {
        match self {
            Notice::DuplicateFingerprint { replaced, kept } => NoticeView::DuplicateFingerprint {
                replaced: replaced@,
                kept: kept@,
            },
            Notice::AlreadyMoved { from, to, moved_to } => NoticeView::AlreadyMoved {
                from: from@,
                to: to@,
                moved_to: moved_to@,
            },
        }
    }
}

/// The moves and the notices of one planning run.
#[derive(Debug)]
pub struct Plan {
    pub moves: Vec<Move>,
    pub notices: Vec<Notice>,
}

/// The destination file, among the first `n`, that a source file with
/// fingerprint `f` may be: the last one with that fingerprint whose path the
/// source does not hold.
pub open spec fn candidate(src: Entries, dst: Entries, n: int, f: Metadata) -> Option<int>
    decreases n,
{
    if n <= 0 {
        None
    } else if !has_path(src, dst[n - 1].0) && dst[n - 1].1 == f {
        Some(n - 1)
    } else {
        candidate(src, dst, n - 1, f)
    }
}

proof fn lemma_candidate_bounds(src: Entries, dst: Entries, n: int, f: Metadata)
    ensures
        candidate(src, dst, n, f) matches Some(i) ==> 0 <= i < n && dst[i].1 == f && !has_path(src, dst[i].0),
    decreases n,
{
    if n > 0 {
        lemma_candidate_bounds(src, dst, n - 1, f);
    }
}

/// The source file that destination file `q` is moved to, if any.
pub open spec fn consumer(plan: Seq<(int, int)>, q: int) -> Option<int>
    decreases plan.len(),
{
    if plan.len() == 0 {
        None
    } else if plan.last().0 == q {
        Some(plan.last().1)
    } else {
        consumer(plan.drop_last(), q)
    }
}

/// The moves planned for the first `n` source files, as pairs of a
/// destination index and a source index, in source order.
pub open spec fn plan_upto(src: Entries, dst: Entries, n: int) -> Seq<(int, int)>
    decreases n,
{
    if n <= 0 {
        seq![]
    } else {
        let prev = plan_upto(src, dst, n - 1);
        if has_path(dst, src[n - 1].0) {
            prev
        } else {
            match candidate(src, dst, dst.len() as int, src[n - 1].1) {
                None => prev,
                Some(q) => if consumer(prev, q) is Some {
                    prev
                } else {
                    prev.push((q, n - 1))
                },
            }
        }
    }
}

/// The moves turned down among the first `n` source files because their
/// destination file was already taken: destination index, source index, and
/// the source index that took it.
pub open spec fn conflicts_upto(src: Entries, dst: Entries, n: int) -> Seq<(int, int, int)>
    decreases n,
{
    if n <= 0 {
        seq![]
    } else {
        let prev = conflicts_upto(src, dst, n - 1);
        if has_path(dst, src[n - 1].0) {
            prev
        } else {
            match candidate(src, dst, dst.len() as int, src[n - 1].1) {
                None => prev,
                Some(q) => match consumer(plan_upto(src, dst, n - 1), q) {
                    Some(r) => prev.push((q, n - 1, r)),
                    None => prev,
                },
            }
        }
    }
}

/// Among the first `n` destination files, each one that hides an earlier
/// candidate of the same fingerprint: the index hidden, then its own.
pub open spec fn duplicates_upto(src: Entries, dst: Entries, n: int) -> Seq<(int, int)>
    decreases n,
{
    if n <= 0 {
        seq![]
    } else {
        let prev = duplicates_upto(src, dst, n - 1);
        if has_path(src, dst[n - 1].0) {
            prev
        } else {
            match candidate(src, dst, n - 1, dst[n - 1].1) {
                Some(i) => prev.push((i, n - 1)),
                None => prev,
            }
        }
    }
}

pub open spec fn plan_of(src: Entries, dst: Entries) -> Seq<(int, int)> {
    plan_upto(src, dst, src.len() as int)
}

/// The moves, as full paths below the destination root.
pub open spec fn planned_moves(src: Summary, dst: Summary) -> Seq<(Seq<char>, Seq<char>)> {
    plan_of(src.entries(), dst.entries()).map_values(
        |m: (int, int)| (dst.base_dir@ + dst.entries()[m.0].0, dst.base_dir@ + src.entries()[m.1].0),
    )
}

/// The notices: duplicate fingerprints in destination order, then the moves
/// turned down, in source order.
pub open spec fn planned_notices(src: Summary, dst: Summary) -> Seq<NoticeView> {
    let s = src.entries();
    let d = dst.entries();
    duplicates_upto(s, d, d.len() as int).map_values(
        |x: (int, int)| NoticeView::DuplicateFingerprint { replaced: d[x.0].0, kept: d[x.1].0 },
    ) + conflicts_upto(s, d, s.len() as int).map_values(
        |x: (int, int, int)| NoticeView::AlreadyMoved { from: d[x.0].0, to: s[x.1].0, moved_to: s[x.2].0 },
    )
}

proof fn lemma_consumer_none(plan: Seq<(int, int)>, q: int)
    ensures
        consumer(plan, q) is None <==> forall|k: int| 0 <= k < plan.len() ==> (#[trigger] plan[k]).0 != q,
    decreases plan.len(),
{
    if plan.len() > 0 {
        lemma_consumer_none(plan.drop_last(), q);
        assert(forall|k: int| 0 <= k < plan.len() - 1 ==> plan.drop_last()[k] == #[trigger] plan[k]);
    }
}

/// What every planned pair satisfies: its indices are in range, its source
/// path is not a destination path, and no destination index comes twice.
proof fn lemma_plan_facts(src: Entries, dst: Entries, n: int)
    requires
        n <= src.len(),
    ensures
        forall|k: int| 0 <= k < plan_upto(src, dst, n).len() ==> {
            let x = #[trigger] plan_upto(src, dst, n)[k];
            &&& 0 <= x.0 < dst.len()
            &&& 0 <= x.1 < n
            &&& !has_path(dst, src[x.1].0)
        },
        forall|a: int, b: int| 0 <= a < b < plan_upto(src, dst, n).len()
            ==> (#[trigger] plan_upto(src, dst, n)[a]).0 != (#[trigger] plan_upto(src, dst, n)[b]).0,
    decreases n,
{
    if n > 0 {
        lemma_plan_facts(src, dst, n - 1);
        let prev = plan_upto(src, dst, n - 1);
        if !has_path(dst, src[n - 1].0) {
            lemma_candidate_bounds(src, dst, dst.len() as int, src[n - 1].1);
            if let Some(q) = candidate(src, dst, dst.len() as int, src[n - 1].1) {
                lemma_consumer_none(prev, q);
                let next = plan_upto(src, dst, n);
                if consumer(prev, q) is None {
                    assert(next == prev.push((q, n - 1)));
                    assert(forall|k: int| 0 <= k < prev.len() ==> next[k] == #[trigger] prev[k]);
                }
            }
        }
    }
}

proof fn lemma_prefix_cancel(base: Seq<char>, x: Seq<char>, y: Seq<char>)
    requires
        base + x == base + y,
    ensures
        x == y,
{
    assert(x =~= (base + x).skip(base.len() as int));
    assert(y =~= (base + y).skip(base.len() as int));
}

/// Each destination file is the origin of at most one move.
pub proof fn lemma_single_consumption(src: Summary, dst: Summary)
    requires
        src.wf(),
        dst.wf(),
    ensures
        forall|a: int, b: int| 0 <= a < b < planned_moves(src, dst).len()
            ==> (#[trigger] planned_moves(src, dst)[a]).0 != (#[trigger] planned_moves(src, dst)[b]).0,
{
    let s = src.entries();
    let d = dst.entries();
    let plan = plan_of(s, d);
    lemma_plan_facts(s, d, s.len() as int);
    lemma_sorted_unique(d);
    assert forall|a: int, b: int| 0 <= a < b < planned_moves(src, dst).len()
        implies (#[trigger] planned_moves(src, dst)[a]).0 != (#[trigger] planned_moves(src, dst)[b]).0 by {
        assert(plan[a].0 != plan[b].0);
        if planned_moves(src, dst)[a].0 == planned_moves(src, dst)[b].0 {
            lemma_prefix_cancel(dst.base_dir@, d[plan[a].0].0, d[plan[b].0].0);
        }
    }
}

/// No move lands on a path that both trees hold.
pub proof fn lemma_preserve_existing(src: Summary, dst: Summary, p: Seq<char>)
    requires
        src.wf(),
        dst.wf(),
        has_path(src.entries(), p),
        has_path(dst.entries(), p),
    ensures
        forall|k: int| 0 <= k < planned_moves(src, dst).len() ==> (#[trigger] planned_moves(src, dst)[k]).1 != dst.base_dir@ + p,
{
    let s = src.entries();
    let d = dst.entries();
    let plan = plan_of(s, d);
    lemma_plan_facts(s, d, s.len() as int);
    assert forall|k: int| 0 <= k < planned_moves(src, dst).len()
        implies (#[trigger] planned_moves(src, dst)[k]).1 != dst.base_dir@ + p by {
        assert(!has_path(d, s[plan[k].1].0));
        if planned_moves(src, dst)[k].1 == dst.base_dir@ + p {
            lemma_prefix_cancel(dst.base_dir@, s[plan[k].1].0, p);
        }
    }
}

/// Where both trees hold the same paths, nothing is moved.
pub proof fn lemma_same_paths_no_moves(src: Summary, dst: Summary)
    requires
        src.wf(),
        dst.wf(),
        forall|p: Seq<char>| has_path(src.entries(), p) <==> has_path(dst.entries(), p),
    ensures
        planned_moves(src, dst).len() == 0,
{
    let s = src.entries();
    let d = dst.entries();
    lemma_plan_empty(s, d, s.len() as int);
}

proof fn lemma_plan_empty(src: Entries, dst: Entries, n: int)
    requires
        n <= src.len(),
        forall|p: Seq<char>| has_path(src, p) <==> has_path(dst, p),
    ensures
        plan_upto(src, dst, n).len() == 0,
    decreases n,
{
    if n > 0 {
        lemma_plan_empty(src, dst, n - 1);
        assert(has_path(src, src[n - 1].0));
    }
}

/// The destination files among the first `n` that the source does not
/// hold and that have the given size, in order.
spec fn bucket(src: Entries, dst: Entries, n: int, size: u64) -> Seq<int>
    decreases n,
{
    if n <= 0 {
        seq![]
    } else {
        let prev = bucket(src, dst, n - 1, size);
        if !has_path(src, dst[n - 1].0) && dst[n - 1].1.size == size {
            prev.push(n - 1)
        } else {
            prev
        }
    }
}

/// The last of the destination files `b` with fingerprint `f`.
spec fn last_in(dst: Entries, b: Seq<int>, f: Metadata) -> Option<int>
    decreases b.len(),
{
    if b.len() == 0 {
        None
    } else if dst[b.last()].1 == f {
        Some(b.last())
    } else {
        last_in(dst, b.drop_last(), f)
    }
}

spec fn ints(b: Seq<usize>) -> Seq<int> {
    b.map_values(|x: usize| x as int)
}

/// What an index keyed by size holds for `size`.
spec fn bucket_of(index: Map<u64, Vec<usize>>, size: u64) -> Seq<int> {
    if index.contains_key(size) {
        ints(index[size]@)
    } else {
        seq![]
    }
}

proof fn lemma_bucket_candidate(src: Entries, dst: Entries, n: int, f: Metadata)
    ensures
        candidate(src, dst, n, f) == last_in(dst, bucket(src, dst, n, f.size), f),
        forall|t: int| 0 <= t < bucket(src, dst, n, f.size).len() ==> 0 <= #[trigger] bucket(src, dst, n, f.size)[t] < n,
    decreases n,
{
    if n > 0 {
        lemma_bucket_candidate(src, dst, n - 1, f);
        let prev = bucket(src, dst, n - 1, f.size);
        if !has_path(src, dst[n - 1].0) && dst[n - 1].1.size == f.size {
            assert(prev.push(n - 1).drop_last() =~= prev);
            assert(forall|t: int| 0 <= t < prev.len() ==> prev.push(n - 1)[t] == #[trigger] prev[t]);
        }
    }
}

/// The last of the destination files in `b` with fingerprint `f`.
fn last_match(files: &Vec<FileEntry>, b: &Vec<usize>, f: Metadata) -> (r: Option<usize>)
    requires
        forall|t: int| 0 <= t < b.len() ==> #[trigger] b@[t] < files.len(),
    ensures
        match r {
            Some(i) => last_in(entries_of(files@), ints(b@), f) == Some(i as int),
            None => last_in(entries_of(files@), ints(b@), f) is None,
        },
{
    let ghost d = entries_of(files@);
    let mut k: usize = b.len();
    assert(ints(b@).take(k as int) =~= ints(b@));
    while k > 0
        invariant
            k <= b.len(),
            d == entries_of(files@),
            forall|t: int| 0 <= t < b.len() ==> #[trigger] b@[t] < files.len(),
            last_in(d, ints(b@), f) == last_in(d, ints(b@).take(k as int), f),
        decreases k,
    {
        let i = b[k - 1];
        assert(d[i as int] == (files@[i as int].path@, files@[i as int].meta));
        assert(ints(b@).take(k as int).last() == i as int);
        if files[i].meta == f {
            return Some(i);
        }
        assert(ints(b@).take(k as int).drop_last() =~= ints(b@).take(k - 1));
        k -= 1;
    }
    None
}

/// The candidate among the first `n` destination files for a source file of
/// fingerprint `f`, looked up in an index of the candidates by size.
fn lookup(index: &HashMap<u64, Vec<usize>>, files: &Vec<FileEntry>, f: Metadata, Ghost(src): Ghost<Entries>, Ghost(n): Ghost<int>) -> (r: Option<usize>)
    requires
        0 <= n <= files.len(),
        forall|size: u64| #[trigger] bucket_of(index@, size) == bucket(src, entries_of(files@), n, size),
    ensures
        match r {
            Some(i) => i < n && candidate(src, entries_of(files@), n, f) == Some(i as int),
            None => candidate(src, entries_of(files@), n, f) is None,
        },
{
    proof {
        lemma_bucket_candidate(src, entries_of(files@), n, f);
        lemma_candidate_bounds(src, entries_of(files@), n, f);
    }
    match index.get(&f.size) {
        Some(b) => {
            assert(bucket_of(index@, f.size) == ints(b@));
            assert forall|t: int| 0 <= t < b.len() implies #[trigger] b@[t] < files.len() by {
                assert(ints(b@)[t] == b@[t] as int);
            }
            last_match(files, b, f)
        },
        None => {
            assert(bucket_of(index@, f.size) == Seq::<int>::empty());
            None
        },
    }
}

/// Plans the moves that make the destination tree follow the source tree's
/// layout. Destination files whose path the source also holds are left where
/// they are, and no move lands on a path the destination already holds. Each
/// source file, in path order, takes the last destination file of its
/// fingerprint, unless an earlier source file took that one already.
pub fn plan_moves(src: &Summary, dst: &Summary) -> (r: Plan)
    requires
        src.wf(),
        dst.wf(),
    ensures
        r.moves@.map_values(|m: Move| m@) == planned_moves(*src, *dst),
        r.notices@.map_values(|x: Notice| x@) == planned_notices(*src, *dst),
{
    let ghost s = src.entries();
    let ghost d = dst.entries();
    let m = dst.files.len();
    let n = src.files.len();

    // The candidates by size, and the fingerprints that hide an earlier
    // candidate.
    let mut index: HashMap<u64, Vec<usize>> = HashMap::new();
    let mut notices: Vec<Notice> = Vec::new();
    assert(forall|size: u64| #[trigger] bucket_of(index@, size) == bucket(s, d, 0, size));
    let mut j: usize = 0;
    while j < m
        invariant
            j <= m == dst.files.len(),
            src.wf(),
            dst.wf(),
            s == src.entries(),
            d == dst.entries(),
            forall|size: u64| #[trigger] bucket_of(index@, size) == bucket(s, d, j as int, size),
            notices.len() == duplicates_upto(s, d, j as int).len(),
            forall|k: int| 0 <= k < notices.len() ==> (#[trigger] notices@[k])@ == ({
                let x = duplicates_upto(s, d, j as int)[k];
                NoticeView::DuplicateFingerprint { replaced: d[x.0].0, kept: d[x.1].0 }
            }),
            forall|k: int| 0 <= k < duplicates_upto(s, d, j as int).len() ==> 0 <= #[trigger] duplicates_upto(s, d, j as int)[k].0 < m
                && 0 <= duplicates_upto(s, d, j as int)[k].1 < m,
        decreases m - j,
    {
        let ghost prev = duplicates_upto(s, d, j as int);
        let ghost old_index = index@;
        assert(d[j as int] == (dst.files@[j as int].path@, dst.files@[j as int].meta));
        if !contains_path(&src.files, &dst.files[j].path) {
            let f = dst.files[j].meta;
            match lookup(&index, &dst.files, f, Ghost(s), Ghost(j as int)) {
                Some(i) => {
                    notices.push(
                        Notice::DuplicateFingerprint {
                            replaced: dst.files[i].path.clone(),
                            kept: dst.files[j].path.clone(),
                        },
                    );
                    assert(duplicates_upto(s, d, j + 1) == prev.push((i as int, j as int)));
                },
                None => {
                    assert(duplicates_upto(s, d, j + 1) == prev);
                },
            }
            let ghost want = bucket(s, d, j as int, f.size);
            assert(bucket_of(old_index, f.size) == want);
            let mut b = match index.remove(&f.size) {
                Some(b) => b,
                None => {
                    let b: Vec<usize> = Vec::new();
                    assert(ints(b@) =~= want);
                    b
                },
            };
            assert(ints(b@) == want);
            b.push(j);
            assert(ints(b@) =~= bucket(s, d, j as int, f.size).push(j as int));
            index.insert(f.size, b);
            assert forall|size: u64| #[trigger] bucket_of(index@, size) == bucket(s, d, j + 1, size) by {
                if size != f.size {
                    assert(bucket_of(old_index, size) == bucket_of(index@, size));
                }
            }
        } else {
            assert(duplicates_upto(s, d, j + 1) == prev);
            assert forall|size: u64| #[trigger] bucket_of(index@, size) == bucket(s, d, j + 1, size) by {}
        }
        j += 1;
    }

    // The moves, in source order; `taken[q]` is the source file that
    // destination file `q` is moved to.
    let ghost dups = notices.len();
    let mut taken: Vec<Option<usize>> = Vec::new();
    while taken.len() < m
        invariant
            taken.len() <= m,
            forall|t: int| 0 <= t < taken.len() ==> taken@[t] is None,
        decreases m - taken.len(),
    {
        taken.push(None);
    }
    let mut moves: Vec<Move> = Vec::new();
    let mut i: usize = 0;
    while i < n
        invariant
            i <= n == src.files.len(),
            m == dst.files.len(),
            s == src.entries(),
            d == dst.entries(),
            src.wf(),
            dst.wf(),
            forall|size: u64| #[trigger] bucket_of(index@, size) == bucket(s, d, m as int, size),
            taken.len() == m,
            forall|q: int| 0 <= q < m ==> match #[trigger] taken@[q] {
                Some(r) => r < i && consumer(plan_upto(s, d, i as int), q) == Some(r as int),
                None => consumer(plan_upto(s, d, i as int), q) is None,
            },
            forall|k: int| 0 <= k < plan_upto(s, d, i as int).len() ==> 0 <= #[trigger] plan_upto(s, d, i as int)[k].0 < m
                && 0 <= plan_upto(s, d, i as int)[k].1 < i,
            moves.len() == plan_upto(s, d, i as int).len(),
            forall|k: int| 0 <= k < moves.len() ==> (#[trigger] moves@[k])@ == ({
                let x = plan_upto(s, d, i as int)[k];
                (dst.base_dir@ + d[x.0].0, dst.base_dir@ + s[x.1].0)
            }),
            dups == duplicates_upto(s, d, m as int).len(),
            notices.len() == dups + conflicts_upto(s, d, i as int).len(),
            forall|k: int| 0 <= k < dups ==> (#[trigger] notices@[k])@ == ({
                let x = duplicates_upto(s, d, m as int)[k];
                NoticeView::DuplicateFingerprint { replaced: d[x.0].0, kept: d[x.1].0 }
            }),
            forall|k: int| 0 <= k < conflicts_upto(s, d, i as int).len() ==> (#[trigger] notices@[dups + k])@ == ({
                let x = conflicts_upto(s, d, i as int)[k];
                NoticeView::AlreadyMoved { from: d[x.0].0, to: s[x.1].0, moved_to: s[x.2].0 }
            }),
        decreases n - i,
    {
        let ghost prev = plan_upto(s, d, i as int);
        let ghost prev_c = conflicts_upto(s, d, i as int);
        let ghost next = plan_upto(s, d, i + 1);
        assert(s[i as int] == (src.files@[i as int].path@, src.files@[i as int].meta));
        if !contains_path(&dst.files, &src.files[i].path) {
            match lookup(&index, &dst.files, src.files[i].meta, Ghost(s), Ghost(m as int)) {
                Some(q) => {
                    match taken[q] {
                        Some(r) => {
                            notices.push(
                                Notice::AlreadyMoved {
                                    from: dst.files[q].path.clone(),
                                    to: src.files[i].path.clone(),
                                    moved_to: src.files[r].path.clone(),
                                },
                            );
                            assert(next == prev);
                            assert(conflicts_upto(s, d, i + 1) == prev_c.push((q as int, i as int, r as int)));
                        },
                        None => {
                            taken.set(q, Some(i));
                            let from = dst.base_dir.clone().concat(dst.files[q].path.as_str());
                            let to = dst.base_dir.clone().concat(src.files[i].path.as_str());
                            moves.push(Move { from, to });
                            assert(next == prev.push((q as int, i as int)));
                            assert(next.drop_last() =~= prev);
                            assert(next[prev.len() as int] == (q as int, i as int));
                            assert(conflicts_upto(s, d, i + 1) == prev_c);
                        },
                    }
                },
                None => {
                    assert(next == prev);
                    assert(conflicts_upto(s, d, i + 1) == prev_c);
                },
            }
        } else {
            assert(next == prev);
            assert(conflicts_upto(s, d, i + 1) == prev_c);
        }
        assert forall|k: int| 0 <= k < next.len() implies 0 <= #[trigger] next[k].0 < m && 0 <= next[k].1 < i + 1 by {
            if k < prev.len() {
                assert(next[k] == prev[k]);
            }
        }
        i += 1;
    }
    let r = Plan { moves, notices };
    assert(r.moves@.map_values(|m: Move| m@) =~= planned_moves(*src, *dst));
    proof {
        let want = planned_notices(*src, *dst);
        let got = r.notices@.map_values(|x: Notice| x@);
        assert(got.len() == want.len());
        assert forall|k: int| 0 <= k < got.len() implies got[k] == want[k] by {
            if k >= dups {
                assert(r.notices@[dups + (k - dups)] == r.notices@[k]);
            }
        }
        assert(got =~= want);
    }
    r
}

} // verus!

