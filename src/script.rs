use vstd::prelude::*;

use crate::path::{
    lemma_path_lt_irreflexive, lemma_path_lt_total, lemma_path_lt_transitive, parent_dir, parent_of,
    path_less, path_lt,
};
use crate::plan::{lemma_same_paths_no_moves, plan_moves, planned_moves, Move};
use crate::snapshot::{has_path, Summary};

verus! {

pub open spec fn mkdir_line(dir: Seq<char>) -> Seq<char> {
    "mkdir -p '"@ + dir + "'"@
}

pub open spec fn mv_line(from: Seq<char>, to: Seq<char>) -> Seq<char> {
    "mv '"@ + from + "' '"@ + to + "'"@
}

/// Whether one of `moves` lands in directory `dir`.
pub open spec fn dir_made(moves: Seq<(Seq<char>, Seq<char>)>, dir: Seq<char>) -> bool {
    exists|k: int| 0 <= k < moves.len() && parent_of(#[trigger] moves[k].1) == Some(dir)
}

/// The commands for `moves`, in order: each move is preceded by a `mkdir -p`
/// of the directory it lands in, the first time that directory comes up.
pub open spec fn move_lines(moves: Seq<(Seq<char>, Seq<char>)>) -> Seq<Seq<char>>
    decreases moves.len(),
{
    if moves.len() == 0 {
        seq![]
    } else {
        let prev = move_lines(moves.drop_last());
        let (from, to) = moves.last();
        let with_dir = match parent_of(to) {
            Some(dir) => if dir_made(moves.drop_last(), dir) {
                prev
            } else {
                prev.push(mkdir_line(dir))
            },
            None => prev,
        };
        with_dir.push(mv_line(from, to))
    }
}

/// The whole script: echo each command, stop at the first failure, then the
/// moves.
pub open spec fn script_lines(moves: Seq<(Seq<char>, Seq<char>)>) -> Seq<Seq<char>> {
    seq!["set -x"@, "set -e"@] + move_lines(moves)
}

/// Lines joined by newlines, with none after the last.
pub open spec fn join_lines(lines: Seq<Seq<char>>) -> Seq<char>
    decreases lines.len(),
{
    if lines.len() == 0 {
        seq![]
    } else if lines.len() == 1 {
        lines[0]
    } else {
        join_lines(lines.drop_last()) + "\n"@ + lines.last()
    }
}

proof fn lemma_join_push(lines: Seq<Seq<char>>, line: Seq<char>)
    requires
        lines.len() > 0,
    ensures
        join_lines(lines.push(line)) == join_lines(lines) + "\n"@ + line,
{
    assert(lines.push(line).drop_last() =~= lines);
}

/// Appends `line` to `out` as a line of its own.
fn push_line(out: &mut String, line: &str)
    ensures
        final(out)@ == old(out)@ + "\n"@ + line@,
{
    out.append("\n");
    out.append(line);
}

/// Whether `dirs` holds `d`.
spec fn holds(dirs: Seq<String>, d: Seq<char>) -> bool {
    exists|t: int| 0 <= t < dirs.len() && (#[trigger] dirs[t])@ == d
}

spec fn sorted_dirs(dirs: Seq<String>) -> bool {
    forall|a: int, b: int| 0 <= a < b < dirs.len() ==> path_lt((#[trigger] dirs[a])@, (#[trigger] dirs[b])@)
}

/// Adds `dir` to the sorted set `dirs`; says whether it was new.
fn add_dir(dirs: &mut Vec<String>, dir: String) -> (added: bool)
    requires
        sorted_dirs(old(dirs)@),
    ensures
        sorted_dirs(final(dirs)@),
        added == !holds(old(dirs)@, dir@),
        forall|d: Seq<char>| #[trigger] holds(final(dirs)@, d) <==> holds(old(dirs)@, d) || d == dir@,
{
    let ghost v = dirs@;
    let mut lo: usize = 0;
    let mut hi: usize = dirs.len();
    while lo < hi
        invariant
            lo <= hi <= dirs.len(),
            v == dirs@,
            sorted_dirs(v),
            forall|t: int| 0 <= t < lo ==> path_lt((#[trigger] v[t])@, dir@),
            forall|t: int| hi <= t < v.len() ==> !path_lt((#[trigger] v[t])@, dir@),
        decreases hi - lo,
    {
        let mid = lo + (hi - lo) / 2;
        if path_less(dirs[mid].as_str(), dir.as_str()) {
            assert forall|t: int| 0 <= t <= mid implies path_lt((#[trigger] v[t])@, dir@) by {
                if t < mid {
                    lemma_path_lt_transitive(v[t]@, v[mid as int]@, dir@);
                }
            }
            lo = mid + 1;
        } else {
            assert forall|t: int| mid <= t < v.len() implies !path_lt((#[trigger] v[t])@, dir@) by {
                if t > mid && path_lt(v[t]@, dir@) {
                    lemma_path_lt_transitive(v[mid as int]@, v[t]@, dir@);
                }
            }
            hi = mid;
        }
    }
    let k = lo;
    if k < dirs.len() && dirs[k] == dir {
        return false;
    }
    proof {
        lemma_path_lt_irreflexive(dir@);
        assert forall|t: int| 0 <= t < v.len() implies (#[trigger] v[t])@ != dir@ by {
            if t >= k {
                lemma_path_lt_total(v[k as int]@, dir@);
                if t > k {
                    lemma_path_lt_transitive(dir@, v[k as int]@, v[t]@);
                }
            }
        }
    }
    let ghost d = dir@;
    dirs.insert(k, dir);
    proof {
        let w = dirs@;
        assert(w =~= v.insert(k as int, w[k as int]));
        if k < v.len() {
            lemma_path_lt_total(v[k as int]@, d);
        }
        assert forall|a: int, b: int| 0 <= a < b < w.len() implies path_lt((#[trigger] w[a])@, (#[trigger] w[b])@) by {
            if a == k && b > k + 1 {
                lemma_path_lt_transitive(d, v[k as int]@, v[b - 1]@);
            }
        }
        assert forall|x: Seq<char>| #[trigger] holds(w, x) <==> holds(v, x) || x == d by {
            if holds(v, x) {
                let t = choose|t: int| 0 <= t < v.len() && (#[trigger] v[t])@ == x;
                if t < k {
                    assert(w[t] == v[t]);
                } else {
                    assert(w[t + 1] == v[t]);
                }
            }
            if x == d {
                assert(w[k as int]@ == d);
            }
            if holds(w, x) {
                let t = choose|t: int| 0 <= t < w.len() && (#[trigger] w[t])@ == x;
                if t < k {
                    assert(w[t] == v[t]);
                } else if t > k {
                    assert(w[t] == v[t - 1]);
                }
            }
        }
    }
    true
}

/// Renders `moves` as a shell script.
pub fn render_script(moves: &Vec<Move>) -> (r: String)
    ensures
        r@ == join_lines(script_lines(moves@.map_values(|m: Move| m@))),
{
    let ghost all = moves@.map_values(|m: Move| m@);
    let mut out = String::from_str("set -x");
    push_line(&mut out, "set -e");
    proof {
        lemma_join_push(seq!["set -x"@], "set -e"@);
        assert(seq!["set -x"@].push("set -e"@) =~= seq!["set -x"@, "set -e"@]);
        assert(script_lines(all.take(0)) =~= seq!["set -x"@, "set -e"@]);
    }
    let mut made: Vec<String> = Vec::new();
    let mut i: usize = 0;
    while i < moves.len()
        invariant
            i <= moves.len(),
            all == moves@.map_values(|m: Move| m@),
            out@ == join_lines(script_lines(all.take(i as int))),
            sorted_dirs(made@),
            forall|dir: Seq<char>| #![trigger dir_made(all.take(i as int), dir)]
                dir_made(all.take(i as int), dir) <==> holds(made@, dir),
        decreases moves.len() - i,
    {
        let ghost before = all.take(i as int);
        let ghost after = all.take(i + 1);
        assert(after.drop_last() =~= before);
        assert(after.last() == moves@[i as int]@);
        let ghost lines = script_lines(before);
        let ghost old_made = made@;
        let ghost dir_of = parent_of(after[i as int].1);
        let to = moves[i].to.as_str();
        match parent_dir(to) {
            Some(dir) => {
                let text = dir.clone();
                if add_dir(&mut made, dir) {
                    let mut line = String::from_str("mkdir -p '");
                    line.append(text.as_str());
                    line.append("'");
                    push_line(&mut out, line.as_str());
                    proof {
                        lemma_join_push(lines, mkdir_line(text@));
                    }
                }
            },
            None => {
                assert(made@ == old_made);
            },
        }
        let mut line = String::from_str("mv '");
        line.append(moves[i].from.as_str());
        line.append("' '");
        line.append(to);
        line.append("'");
        push_line(&mut out, line.as_str());
        proof {
            let with_dir = match parent_of(after.last().1) {
                Some(dir) => if dir_made(before, dir) {
                    move_lines(before)
                } else {
                    move_lines(before).push(mkdir_line(dir))
                },
                None => move_lines(before),
            };
            assert(move_lines(after) == with_dir.push(mv_line(after.last().0, after.last().1)));
            assert(script_lines(after) =~= (seq!["set -x"@, "set -e"@] + with_dir).push(mv_line(after.last().0, after.last().1)));
            if with_dir != move_lines(before) {
                assert(seq!["set -x"@, "set -e"@] + with_dir =~= lines.push(mkdir_line(parent_of(after.last().1)->0)));
            } else {
                assert(seq!["set -x"@, "set -e"@] + with_dir =~= lines);
            }
            lemma_join_push(seq!["set -x"@, "set -e"@] + with_dir, mv_line(after.last().0, after.last().1));
            assert forall|dir: Seq<char>| #![trigger dir_made(after, dir)]
                dir_made(after, dir) <==> holds(made@, dir) by {
                if dir_made(after, dir) {
                    let k = choose|k: int| 0 <= k < after.len() && parent_of(#[trigger] after[k].1) == Some(dir);
                    if k < i {
                        assert(before[k] == after[k]);
                        assert(dir_made(before, dir));
                    }
                }
                if dir_made(before, dir) {
                    let k = choose|k: int| 0 <= k < before.len() && parent_of(#[trigger] before[k].1) == Some(dir);
                    assert(before[k] == after[k]);
                }
                if dir_of == Some(dir) {
                    assert(dir_made(after, dir));
                }
                assert(holds(made@, dir) ==> holds(old_made, dir) || dir_of == Some(dir));
                assert(holds(old_made, dir) ==> dir_made(before, dir));
            }
        }
        i += 1;
    }
    assert(all.take(moves.len() as int) =~= all);
    out
}

/// Where both trees hold the same paths, the script holds its two preamble
/// lines and no command.
pub proof fn lemma_same_paths_empty_script(src: Summary, dst: Summary)
    requires
        src.wf(),
        dst.wf(),
        forall|p: Seq<char>| has_path(src.entries(), p) <==> has_path(dst.entries(), p),
    ensures
        script_lines(planned_moves(src, dst)) == seq!["set -x"@, "set -e"@],
{
    lemma_same_paths_no_moves(src, dst);
    assert(script_lines(planned_moves(src, dst)) =~= seq!["set -x"@, "set -e"@]);
}

/// The script that moves the destination tree's files to where the source
/// tree holds them.
pub fn diff(src: &Summary, dst: &Summary) -> (r: String)
    requires
        src.wf(),
        dst.wf(),
    ensures
        r@ == join_lines(script_lines(planned_moves(*src, *dst))),
{
    let plan = plan_moves(src, dst);
    render_script(&plan.moves)
}

} // verus!
