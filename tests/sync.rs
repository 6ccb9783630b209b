use sync_mv::{diff, Metadata, Summary};

fn summary(base: &str, files: &[(&str, u64, u128)]) -> Summary {
    let mut s = Summary::new(base, 0);
    for (path, size, modified) in files {
        s.insert_relative(path.to_string(), Metadata { size: *size, modified: *modified });
    }
    s
}

#[test]
fn sync() {
    let src = summary(
        "tests/test_data/src/",
        &[
            ("1/1_.txt", 2, 1671944003613389535),
            ("2_.txt", 2, 1671944011717239623),
            ("3.txt", 2, 1672027351079920913),
            ("3_.txt", 2, 1672027351079920913),
            ("4.txt", 2, 1672027285744982980),
        ],
    );
    let dst = summary(
        "tests/test_data/dst/",
        &[
            ("1.txt", 2, 1671944003613389535),
            ("2.txt", 2, 1671944011717239623),
            ("3.txt", 2, 1672027351079920913),
        ],
    );
    assert_eq!(
        diff(&src, &dst),
        r#"set -x
set -e
mkdir -p 'tests/test_data/dst/1'
mv 'tests/test_data/dst/1.txt' 'tests/test_data/dst/1/1_.txt'
mkdir -p 'tests/test_data/dst'
mv 'tests/test_data/dst/2.txt' 'tests/test_data/dst/2_.txt'"#
    );
}
