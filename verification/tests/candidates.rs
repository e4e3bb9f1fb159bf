use seedfs::candidates::get_best_candidate;
use seedfs::path::Path;

#[test]
fn get_best_candidate_single_option() {
    let rel = Path::new("b/c");
    let only = Path::new("/a/b/c");
    assert_eq!(
        get_best_candidate(&rel, &vec![Path::new("/a/b/c")], None),
        Some((&rel, &only))
    );

    // With only a single option, `preferred_prefix` should have no effect on the result.
    assert_eq!(
        get_best_candidate(
            &rel,
            &vec![Path::new("/a/b/c")],
            Some(&Path::new("/a2/b2/c2"))
        ),
        Some((&rel, &only))
    );

    assert_eq!(
        get_best_candidate(
            &rel,
            &vec![Path::new("/a/b/c")],
            Some(&Path::new("/a/b/c"))
        ),
        Some((&rel, &only))
    );
}

#[test]
fn get_best_candidate_preferred_prefix_disambiguates() {
    let rel = Path::new("b/c");
    let expected = Path::new("/a/b/c");
    assert_eq!(
        get_best_candidate(
            &rel,
            &vec![Path::new("/a/b/c"), Path::new("/a2/b/c")],
            Some(&Path::new("/a"))
        ),
        Some((&rel, &expected))
    );

    assert_eq!(
        get_best_candidate(
            &rel,
            &vec![Path::new("/a/b/c"), Path::new("/a2/b/c")],
            Some(&Path::new("/a/b"))
        ),
        Some((&rel, &expected))
    );

    assert_eq!(
        get_best_candidate(
            &rel,
            &vec![Path::new("/a/b/c"), Path::new("/a2/b/c")],
            Some(&Path::new("/a/b2"))
        ),
        Some((&rel, &expected))
    );
}

#[test]
fn get_best_candidate_preferred_prefix_matches_nothing() {
    // Only the candidate's own path tells the two apart, so the one that
    // sorts last is chosen.
    let rel = Path::new("b/c");
    let expected = Path::new("/a2/b/c");
    assert_eq!(
        get_best_candidate(
            &rel,
            &vec![Path::new("/a/b/c"), Path::new("/a2/b/c")],
            Some(&Path::new("/e"))
        ),
        Some((&rel, &expected))
    );
}

#[test]
fn get_best_candidate_longest_shared_suffix_wins() {
    let rel = Path::new("b/c");
    let expected = Path::new("/a/b/c");
    assert_eq!(
        get_best_candidate(
            &rel,
            &vec![Path::new("/a/b/c"), Path::new("/a/b2/c")],
            None,
        ),
        Some((&rel, &expected))
    );
}

#[test]
fn get_best_candidate_shared_longest_shared_suffix() {
    let rel = Path::new("b/c");
    let expected = Path::new("/a2/b/c");
    assert_eq!(
        get_best_candidate(
            &rel,
            &vec![Path::new("/a/b/c"), Path::new("/a2/b/c")],
            None,
        ),
        Some((&rel, &expected))
    );
}

#[test]
fn get_best_candidate_prefer_suffix_over_prefix() {
    let rel = Path::new("b/c");
    let expected = Path::new("/a/b/c");
    assert_eq!(
        get_best_candidate(
            &rel,
            &vec![Path::new("/a/b/c"), Path::new("/a/b2/c")],
            Some(&Path::new("/a/b2"))
        ),
        Some((&rel, &expected))
    );
}

#[test]
fn get_best_candidate_without_candidates() {
    let rel = Path::new("b/c");
    assert_eq!(get_best_candidate(&rel, &vec![], None), None);
}

#[test]
fn get_best_candidate_is_the_same_in_any_order() {
    let rel = Path::new("b/c");
    let expected = Path::new("/a2/b/c");
    assert_eq!(
        get_best_candidate(
            &rel,
            &vec![Path::new("/a2/b/c"), Path::new("/a/b/c")],
            None,
        ),
        Some((&rel, &expected))
    );
}

use seedfs::candidates::{
    enumerate_files_with_sizes, find_candidates, find_preferred_root, pick_candidates,
    CandidateError, FileCandidates,
};
use seedfs::fs::Walked;
use seedfs::pathmap::Mapping;
use seedfs::torrent::File;

fn file(path: &str, length: u64) -> File {
    File {
        length,
        path: Path::new(path),
    }
}

#[test]
fn enumerate_files_with_sizes_indexes_plain_files() {
    let index = enumerate_files_with_sizes(&vec![
        Walked::Dir(Path::new("/src")),
        Walked::File(Path::new("/src/a"), Ok(4)),
        Walked::Symlink(Path::new("/src/l"), Ok(Path::new("/src/a"))),
        Walked::File(Path::new("/src/b"), Ok(7)),
        Walked::Failed("denied".into()),
        Walked::File(Path::new("/src/c"), Err("gone".into())),
        Walked::Other(Path::new("/src/socket")),
        Walked::File(Path::new("/src/d"), Ok(4)),
    ]);
    assert_eq!(
        index.get(4),
        Some(&vec![Path::new("/src/a"), Path::new("/src/d")])
    );
    assert_eq!(index.get(7), Some(&vec![Path::new("/src/b")]));
    assert_eq!(index.get(0), None);
    assert_eq!(index.get(5), None);
}

#[test]
fn find_candidates_fails_at_the_first_file_without_any() {
    let index = enumerate_files_with_sizes(&vec![Walked::File(Path::new("/src/a"), Ok(4))]);
    let files = vec![file("t/a", 4), file("t/b", 5), file("t/c", 6)];
    assert!(matches!(
        find_candidates(&files, &index),
        Err(CandidateError::NoCandidates(path)) if path == Path::new("t/b")
    ));
    let first = vec![file("t/a", 4)];
    let found = find_candidates(&first, &index).unwrap();
    assert_eq!(found.len(), 1);
    assert_eq!(found[0].path, &Path::new("t/a"));
    assert_eq!(found[0].length, 4);
    assert_eq!(found[0].candidates, &vec![Path::new("/src/a")]);
}

#[test]
fn pick_candidates_prefers_the_directory_of_the_largest_file() {
    let big = Path::new("show/big.mkv");
    let small = Path::new("show/small.nfo");
    let big_candidates = vec![Path::new("/pool2/show/big.mkv")];
    let small_candidates = vec![
        Path::new("/pool1/x/small.nfo"),
        Path::new("/pool2/y/small.nfo"),
        Path::new("/pool3/z/small.nfo"),
    ];
    let entries = vec![
        FileCandidates {
            path: &small,
            length: 10,
            candidates: &small_candidates,
        },
        FileCandidates {
            path: &big,
            length: 1000,
            candidates: &big_candidates,
        },
    ];
    assert_eq!(find_preferred_root(&entries), Some(Path::new("/pool2")));
    let mut expected = Mapping::new();
    expected.insert(
        Path::new("show/small.nfo"),
        Path::new("/pool2/y/small.nfo"),
    );
    expected.insert(Path::new("show/big.mkv"), Path::new("/pool2/show/big.mkv"));
    assert_eq!(pick_candidates(&entries), expected);
}

#[test]
fn pick_candidates_without_a_preferred_directory() {
    let one = Path::new("t/one");
    let two = Path::new("t/two");
    let candidates = vec![Path::new("/a/t/one"), Path::new("/b/t/two")];
    let entries = vec![
        FileCandidates {
            path: &one,
            length: 4,
            candidates: &candidates,
        },
        FileCandidates {
            path: &two,
            length: 4,
            candidates: &candidates,
        },
        // The same path again is mapped once, from its first entry.
        FileCandidates {
            path: &one,
            length: 4,
            candidates: &candidates,
        },
    ];
    assert_eq!(find_preferred_root(&entries), None);
    let mut expected = Mapping::new();
    expected.insert(Path::new("t/one"), Path::new("/a/t/one"));
    expected.insert(Path::new("t/two"), Path::new("/b/t/two"));
    assert_eq!(pick_candidates(&entries), expected);

    // A single candidate that does not end in the file's path prefers nothing.
    let renamed = vec![Path::new("/a/other")];
    let entries = vec![FileCandidates {
        path: &one,
        length: 4,
        candidates: &renamed,
    }];
    assert_eq!(find_preferred_root(&entries), None);
    assert_eq!(find_preferred_root(&vec![]), None);
    assert_eq!(pick_candidates(&vec![]), Mapping::new());
}
