use sync_mv::{diff, plan_moves, render_script, Metadata, Move, Notice, Summary};

fn fp(size: u64, modified: u128) -> Metadata {
    Metadata { size, modified }
}

fn summary(base: &str, files: &[(&str, Metadata)]) -> Summary {
    let mut s = Summary::new(base, 0);
    for (path, meta) in files {
        s.insert_relative(path.to_string(), *meta);
    }
    s
}

#[test]
fn moved_files_scenario() {
    let x = fp(10, 1);
    let y = fp(20, 2);
    let z = fp(30, 3);
    let src = summary("/s/", &[("1/1_.txt", x), ("2_.txt", y), ("3.txt", z)]);
    let dst = summary("/d/", &[("1.txt", x), ("2.txt", y), ("3.txt", z)]);
    let script = diff(&src, &dst);
    assert_eq!(
        script,
        "set -x\nset -e\nmkdir -p '/d/1'\nmv '/d/1.txt' '/d/1/1_.txt'\nmkdir -p '/d'\nmv '/d/2.txt' '/d/2_.txt'"
    );
    assert!(!script.contains("3.txt"));
}

#[test]
fn later_duplicate_is_the_candidate() {
    let x = fp(5, 7);
    let src = summary("/s/", &[("c.txt", x)]);
    let dst = summary("/d/", &[("b.txt", x), ("a.txt", x)]);
    let plan = plan_moves(&src, &dst);
    assert_eq!(plan.moves.len(), 1);
    assert_eq!(plan.moves[0].from, "/d/b.txt");
    assert_eq!(plan.moves[0].to, "/d/c.txt");
    assert_eq!(plan.notices.len(), 1);
    match &plan.notices[0] {
        Notice::DuplicateFingerprint { replaced, kept } => {
            assert_eq!(replaced, "a.txt");
            assert_eq!(kept, "b.txt");
        }
        other => panic!("unexpected notice {:?}", other),
    }
}

#[test]
fn destination_file_moved_once() {
    let x = fp(5, 7);
    let src = summary("/s/", &[("c1", x), ("c2", x)]);
    let dst = summary("/d/", &[("a", x)]);
    let plan = plan_moves(&src, &dst);
    assert_eq!(plan.moves.len(), 1);
    assert_eq!(plan.moves[0].from, "/d/a");
    assert_eq!(plan.moves[0].to, "/d/c1");
    assert_eq!(plan.notices.len(), 1);
    match &plan.notices[0] {
        Notice::AlreadyMoved { from, to, moved_to } => {
            assert_eq!(from, "a");
            assert_eq!(to, "c2");
            assert_eq!(moved_to, "c1");
        }
        other => panic!("unexpected notice {:?}", other),
    }
}

#[test]
fn same_paths_give_no_moves() {
    let src = summary("/s/", &[("a", fp(1, 1)), ("b/c", fp(2, 2))]);
    let dst = summary("/d/", &[("a", fp(2, 2)), ("b/c", fp(1, 1))]);
    assert_eq!(diff(&src, &dst), "set -x\nset -e");
}

#[test]
fn existing_destination_path_is_kept() {
    let x = fp(1, 1);
    // "keep" is in both trees; the destination's "old" matches it by
    // fingerprint, but nothing may land on "keep".
    let src = summary("/s/", &[("keep", x)]);
    let dst = summary("/d/", &[("keep", fp(9, 9)), ("old", x)]);
    let plan = plan_moves(&src, &dst);
    assert!(plan.moves.is_empty());
    assert!(plan.notices.is_empty());
}

#[test]
fn destination_path_held_by_source_is_not_moved() {
    let x = fp(1, 1);
    let src = summary("/s/", &[("a", fp(3, 3)), ("b", x)]);
    let dst = summary("/d/", &[("a", x)]);
    assert!(plan_moves(&src, &dst).moves.is_empty());
}

#[test]
fn empty_snapshots() {
    let src = summary("/s/", &[]);
    let dst = summary("/d/", &[]);
    assert_eq!(diff(&src, &dst), "set -x\nset -e");
}

#[test]
fn mkdir_once_per_directory() {
    let moves = vec![
        Move { from: "/d/a".to_string(), to: "/d/x/a".to_string() },
        Move { from: "/d/b".to_string(), to: "/d/x/b".to_string() },
        Move { from: "/d/c".to_string(), to: "/d/y/c".to_string() },
    ];
    assert_eq!(
        render_script(&moves),
        "set -x\nset -e\nmkdir -p '/d/x'\nmv '/d/a' '/d/x/a'\nmv '/d/b' '/d/x/b'\nmkdir -p '/d/y'\nmv '/d/c' '/d/y/c'"
    );
}

#[test]
fn move_without_directory_has_no_mkdir() {
    let moves = vec![Move { from: "a".to_string(), to: "b".to_string() }];
    assert_eq!(render_script(&moves), "set -x\nset -e\nmv 'a' 'b'");
}

#[test]
fn paths_with_spaces_are_quoted() {
    let x = fp(4, 4);
    let src = summary("/s/", &[("new dir/f g", x)]);
    let dst = summary("/my d/", &[("f g", x)]);
    assert_eq!(
        diff(&src, &dst),
        "set -x\nset -e\nmkdir -p '/my d/new dir'\nmv '/my d/f g' '/my d/new dir/f g'"
    );
}
