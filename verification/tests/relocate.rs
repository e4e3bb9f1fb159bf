use seedfs::path::Path;
use seedfs::pathmap::FileSizes;
use seedfs::relocate::{calculate_new_base_path, CalculateNewBasePathError};
use seedfs::sycli::Torrent;

fn torrent(name: &str, base_path: &str, files: &[(&str, u64)]) -> Torrent {
    let mut sizes = FileSizes::new();
    for (path, size) in files {
        sizes.insert(Path::new(path), *size);
    }
    Torrent {
        id: "0123456789012345678901234567890123456789".into(),
        name: name.into(),
        base_path: Path::new(base_path),
        progress: 1.0f64.to_bits(),
        tracker_urls: vec!["https://example.com:9999".into()],
        size: 123,
        files: sizes,
    }
}

#[test]
fn calculate_new_base_path_with_single_file_torrent() {
    let single = torrent("test.txt", "/tmp", &[("test.txt", 123)]);
    assert_eq!(
        calculate_new_base_path(
            &Path::new("/tmp/test.txt"),
            true,
            &Path::new("/home/test/data"),
            &single
        ),
        Ok(Path::new("/home/test/data"))
    );

    let single = torrent("test.txt", "/tmp/test torrent", &[("test.txt", 123)]);
    assert_eq!(
        calculate_new_base_path(
            &Path::new("/tmp/test torrent"),
            false,
            &Path::new("/home/test/data"),
            &single
        ),
        Ok(Path::new("/home/test/data/test torrent"))
    );

    let single = torrent("test.txt", "/tmp/test torrent/disc 1", &[("test.txt", 123)]);
    assert_eq!(
        calculate_new_base_path(
            &Path::new("/tmp/test torrent"),
            false,
            &Path::new("/home/test/data"),
            &single
        ),
        Ok(Path::new("/home/test/data/test torrent/disc 1"))
    );
}

#[test]
fn calculate_new_base_path_with_multi_file_torrent() {
    let multi = torrent("test torrent", "/tmp", &[("test data/test.txt", 123)]);
    assert_eq!(
        calculate_new_base_path(
            &Path::new("/tmp/test torrent"),
            false,
            &Path::new("/home/test/data"),
            &multi
        ),
        Ok(Path::new("/home/test/data"))
    );

    let multi = torrent("disc 1", "/tmp/test torrent", &[("disc 1/test.txt", 123)]);
    assert_eq!(
        calculate_new_base_path(
            &Path::new("/tmp/test torrent"),
            false,
            &Path::new("/home/test/data"),
            &multi
        ),
        Ok(Path::new("/home/test/data/test torrent"))
    );
}

#[test]
fn calculate_new_base_path_move_of_a_directory() {
    let single = torrent("file.bin", "/src/x", &[("file.bin", 123)]);
    assert_eq!(
        calculate_new_base_path(&Path::new("/src/x"), false, &Path::new("/tgt"), &single),
        Ok(Path::new("/tgt/x"))
    );
}

#[test]
fn calculate_new_base_path_errors() {
    let single = torrent("test.txt", "/elsewhere", &[("test.txt", 123)]);
    assert_eq!(
        calculate_new_base_path(&Path::new("/tmp/x"), false, &Path::new("/tgt"), &single),
        Err(CalculateNewBasePathError::NotAPrefix)
    );

    let single = torrent("test.txt", "/tmp", &[("test.txt", 123)]);
    assert_eq!(
        calculate_new_base_path(&Path::new("/"), false, &Path::new("/tgt"), &single),
        Err(CalculateNewBasePathError::NoFileName(Path::new("/")))
    );

    let multi = torrent("test torrent", "/tmp", &[("a/test.txt", 123)]);
    assert_eq!(
        calculate_new_base_path(&Path::new("/"), false, &Path::new("/tgt"), &multi),
        Err(CalculateNewBasePathError::NoParent(Path::new("/")))
    );
    assert_eq!(
        calculate_new_base_path(&Path::new("/other/x"), false, &Path::new("/tgt"), &multi),
        Err(CalculateNewBasePathError::NotAPrefix)
    );

    let multi = torrent("", "", &[("a/test.txt", 123)]);
    assert_eq!(
        calculate_new_base_path(&Path::new("x"), false, &Path::new(""), &multi),
        Err(CalculateNewBasePathError::NoParent(Path::new("")))
    );
}

use seedfs::pathmap::Mapping;
use seedfs::plan::Step;
use seedfs::relocate::{update_symlinks, MoveArgs, MoveError, Strategy, UpdateSymlinksError};
use seedfs::sycli::FilterTorrentsError;

fn sizes(files: &[(&str, u64)]) -> FileSizes {
    let mut sizes = FileSizes::new();
    for (path, size) in files {
        sizes.insert(Path::new(path), *size);
    }
    sizes
}

fn links(pairs: &[(&str, &str)]) -> Mapping {
    let mut links = Mapping::new();
    for (link, target) in pairs {
        links.insert(Path::new(link), Path::new(target));
    }
    links
}

fn client(id: &str, name: &str, base_path: &str, progress: f64, files: &[(&str, u64)]) -> Torrent {
    Torrent {
        id: id.into(),
        name: name.into(),
        base_path: Path::new(base_path),
        progress: progress.to_bits(),
        tracker_urls: vec![],
        size: files.iter().map(|(_, size)| size).sum(),
        files: sizes(files),
    }
}

fn move_args(source: &str, target: &str, strategy: Strategy) -> MoveArgs {
    MoveArgs {
        source: Path::new(source),
        target: Path::new(target),
        strategy,
        symlink_dir: vec![],
        dry_run: false,
    }
}

#[test]
fn move_with_rename_strategy() {
    let torrent = client("aa", "file.bin", "/src/x", 1.0, &[("file.bin", 3)]);
    let args = move_args("/src/x", "/tgt", Strategy::Rename);
    assert!(!args.target_in_source());
    assert_eq!(
        args.exec(false, &sizes(&[("/src/x/file.bin", 3)]), &[torrent], &vec![]),
        Ok(vec![
            Step::PauseTorrent("aa".into()),
            Step::Rename {
                from: Path::new("/src/x"),
                to: Path::new("/tgt/x"),
            },
            Step::MoveTorrent {
                id: "aa".into(),
                base_path: Path::new("/tgt/x"),
            },
            Step::ResumeTorrent("aa".into()),
        ])
    );
}

#[test]
fn move_with_copy_strategy_and_symlinks() {
    let owner = client("aa", "show", "/src", 1.0, &[("show/a.mkv", 3), ("show/b.mkv", 4)]);
    let linked = client("bb", "mirror", "/farm", 1.0, &[("mirror/a.mkv", 3)]);
    let other = client("cc", "other", "/elsewhere", 0.5, &[("other", 1)]);
    let found = vec![links(&[
        ("/farm/mirror/a.mkv", "/src/show/a.mkv"),
        ("/farm/unrelated", "/elsewhere/other"),
    ])];
    let source_files = sizes(&[("/src/show/a.mkv", 3), ("/src/show/b.mkv", 4)]);
    let args = move_args("/src/show", "/tgt", Strategy::CopyAndUnlink);
    let all = [other.clone(), owner.clone(), linked.clone()];
    let plan = args.exec(false, &source_files, &all, &found);
    assert_eq!(
        plan,
        Ok(vec![
            Step::PauseTorrent("aa".into()),
            Step::PauseTorrent("bb".into()),
            Step::CopyTree {
                from: Path::new("/src/show"),
                into: Path::new("/tgt"),
            },
            Step::MoveTorrent {
                id: "aa".into(),
                base_path: Path::new("/tgt"),
            },
            Step::RemoveTree(Path::new("/src/show")),
            Step::CreateOrUpdateSymlink {
                link: Path::new("/farm/mirror/a.mkv"),
                target: Path::new("/tgt/show/a.mkv"),
            },
            Step::ResumeTorrent("aa".into()),
            Step::ResumeTorrent("bb".into()),
        ])
    );
    // After a rename that failed across devices the pauses are done already.
    let renamed = move_args("/src/show", "/tgt", Strategy::Rename);
    assert_eq!(
        renamed.plan_after_failed_rename(false, &source_files, &all, &found),
        Ok(plan.unwrap().split_off(2))
    );
}

#[test]
fn move_of_a_file_with_copy_strategy() {
    let torrent = client("aa", "data.bin", "/src", 1.0, &[("data.bin", 3)]);
    let args = move_args("/src/data.bin", "/tgt", Strategy::CopyAndUnlink);
    assert_eq!(
        args.exec(true, &sizes(&[("/src/data.bin", 3)]), &[torrent], &vec![]),
        Ok(vec![
            Step::PauseTorrent("aa".into()),
            Step::CopyFile {
                from: Path::new("/src/data.bin"),
                to: Path::new("/tgt/data.bin"),
            },
            Step::MoveTorrent {
                id: "aa".into(),
                base_path: Path::new("/tgt"),
            },
            Step::RemoveFile(Path::new("/src/data.bin")),
            Step::ResumeTorrent("aa".into()),
        ])
    );
}

#[test]
fn move_errors() {
    let args = move_args("/src/x", "/tgt", Strategy::Rename);
    let source_files = sizes(&[("/src/x/file.bin", 3)]);

    // A source file of no torrent.
    assert_eq!(
        args.exec(false, &source_files, &[], &vec![]),
        Err(MoveError::Torrents(
            FilterTorrentsError::DidNotMatchAllSourceFiles {
                matched: 0,
                total: 1
            }
        ))
    );

    // No source file at all, so no torrent.
    assert_eq!(
        args.exec(false, &FileSizes::new(), &[], &vec![]),
        Err(MoveError::NoTorrents)
    );

    // A torrent with files in the source and elsewhere.
    let mixed = client("aa", "x", "/src", 1.0, &[("x/file.bin", 3), ("y", 1)]);
    assert_eq!(
        args.exec(false, &source_files, &[mixed], &vec![]),
        Err(MoveError::Torrents(
            FilterTorrentsError::TorrentIncludesSourceAndNonSourceFiles(
                "aa".into(),
                vec![Path::new("/src/y")]
            )
        ))
    );

    // An incomplete torrent.
    let partial = client("aa", "file.bin", "/src/x", 0.99, &[("file.bin", 3)]);
    assert_eq!(
        args.exec(false, &source_files, &[partial], &vec![]),
        Err(MoveError::Incomplete("aa".into()))
    );

    // An incomplete torrent behind a symlink.
    let owner = client("aa", "file.bin", "/src/x", 1.0, &[("file.bin", 3)]);
    let linked = client("bb", "l", "/farm", 0.0, &[("l", 3)]);
    let found = vec![links(&[("/farm/l", "/src/x/file.bin")])];
    assert_eq!(
        args.exec(false, &source_files, &[owner.clone(), linked], &found),
        Err(MoveError::IncompleteSymlinked("bb".into()))
    );

    // A symlink that no torrent owns.
    assert_eq!(
        args.exec(false, &source_files, &[owner.clone()], &found),
        Err(MoveError::SymlinkedTorrents(
            FilterTorrentsError::DidNotMatchAllSourceFiles {
                matched: 0,
                total: 1
            }
        ))
    );

    // A torrent that does not lie below the source.
    let elsewhere = client("aa", "file.bin", "/src", 1.0, &[("x/file.bin", 3)]);
    let deep = move_args("/src/x/file.bin/..", "/tgt", Strategy::Rename);
    assert_eq!(
        deep.exec(false, &source_files, &[elsewhere.clone()], &vec![]),
        Err(MoveError::NoFileName(Path::new("/src/x/file.bin/..")))
    );
    let single = client("aa", "file.bin", "/src/x", 1.0, &[("file.bin", 3)]);
    let other_source = move_args("/src/x/file.bin", "/tgt", Strategy::Rename);
    assert_eq!(
        other_source.exec(false, &source_files, &[single], &vec![]),
        Err(MoveError::BasePath(CalculateNewBasePathError::NotAPrefix))
    );
}

#[test]
fn target_in_source_is_told() {
    assert!(move_args("/src/x", "/src/x/inner", Strategy::CopyAndUnlink).target_in_source());
    assert!(move_args("/src/x", "/src/x", Strategy::CopyAndUnlink).target_in_source());
    assert!(!move_args("/src/x", "/src/xy", Strategy::CopyAndUnlink).target_in_source());
    assert_eq!(Strategy::default(), Strategy::CopyAndUnlink);
}

#[test]
fn update_symlinks_follows_the_move() {
    assert_eq!(
        update_symlinks(
            &Path::new("/src/x"),
            &Path::new("/tgt"),
            &links(&[("/farm/a", "/src/x/f"), ("/farm/b", "/src/x/d/g")])
        ),
        Ok(vec![
            Step::CreateOrUpdateSymlink {
                link: Path::new("/farm/a"),
                target: Path::new("/tgt/x/f"),
            },
            Step::CreateOrUpdateSymlink {
                link: Path::new("/farm/b"),
                target: Path::new("/tgt/x/d/g"),
            },
        ])
    );
    assert_eq!(
        update_symlinks(
            &Path::new("/src/x"),
            &Path::new("/tgt"),
            &links(&[("/farm/a", "/other/f")])
        ),
        Err(UpdateSymlinksError::NotAPrefix)
    );
    assert_eq!(
        update_symlinks(&Path::new("/"), &Path::new("/tgt"), &links(&[])),
        Err(UpdateSymlinksError::NoParent(Path::new("/")))
    );
}

#[test]
fn calculate_new_base_path_is_the_same_from_any_directory() {
    let read_from = |dir: &str, path: &str| Path::new(dir).join(&Path::new(path));
    let cases: Vec<(&str, bool, &str, Torrent)> = vec![
        ("x", false, "tgt", torrent("file.bin", "x", &[("file.bin", 3)])),
        ("x", false, "/tgt", torrent("file.bin", "x/disc 1", &[("file.bin", 3)])),
        ("d/show", false, "tgt/in", torrent("show", "d", &[("show/a", 1), ("show/b", 2)])),
        ("d/show", false, "/tgt", torrent("show", "elsewhere", &[("show/a", 1), ("show/b", 2)])),
        ("d/..", false, "tgt", torrent("file.bin", "d/..", &[("file.bin", 3)])),
        ("x/file.bin", true, "tgt", torrent("file.bin", "x", &[("file.bin", 3)])),
    ];
    for (source, source_is_file, target, client) in cases {
        let plain = calculate_new_base_path(
            &Path::new(source),
            source_is_file,
            &Path::new(target),
            &client,
        );
        let mut moved = client.clone();
        moved.base_path = read_from("/home/user", &show_path(&client.base_path));
        let absolute = calculate_new_base_path(
            &read_from("/home/user", source),
            source_is_file,
            &read_from("/home/user", target),
            &moved,
        );
        let expected = match plain {
            Ok(path) => Ok(Path::new("/home/user").join(&path)),
            Err(CalculateNewBasePathError::NotAPrefix) => {
                Err(CalculateNewBasePathError::NotAPrefix)
            }
            Err(CalculateNewBasePathError::NoParent(path)) => Err(
                CalculateNewBasePathError::NoParent(Path::new("/home/user").join(&path)),
            ),
            Err(CalculateNewBasePathError::NoFileName(path)) => Err(
                CalculateNewBasePathError::NoFileName(Path::new("/home/user").join(&path)),
            ),
        };
        assert_eq!(absolute, expected);
    }
}

fn show_path(path: &Path) -> String {
    String::from_utf8(path.to_bytes()).unwrap()
}

use seedfs::relocate::{move_files_with_copy, move_files_with_rename};

#[test]
fn move_files_by_either_strategy() {
    let told = || {
        vec![Step::MoveTorrent {
            id: "aa".into(),
            base_path: Path::new("/tgt/x"),
        }]
    };
    assert_eq!(
        move_files_with_rename(&Path::new("/src/x"), &Path::new("/tgt"), told()),
        Ok(vec![
            Step::Rename {
                from: Path::new("/src/x"),
                to: Path::new("/tgt/x"),
            },
            Step::MoveTorrent {
                id: "aa".into(),
                base_path: Path::new("/tgt/x"),
            },
        ])
    );
    assert_eq!(
        move_files_with_copy(&Path::new("/src/x"), false, &Path::new("/tgt"), told()),
        Ok(vec![
            Step::CopyTree {
                from: Path::new("/src/x"),
                into: Path::new("/tgt"),
            },
            Step::MoveTorrent {
                id: "aa".into(),
                base_path: Path::new("/tgt/x"),
            },
            Step::RemoveTree(Path::new("/src/x")),
        ])
    );
    assert_eq!(
        move_files_with_copy(&Path::new("/src/x"), true, &Path::new("/tgt"), vec![]),
        Ok(vec![
            Step::CopyFile {
                from: Path::new("/src/x"),
                to: Path::new("/tgt/x"),
            },
            Step::RemoveFile(Path::new("/src/x")),
        ])
    );
    assert_eq!(
        move_files_with_rename(&Path::new("/"), &Path::new("/tgt"), vec![]),
        Err(MoveError::NoFileName(Path::new("/")))
    );
    assert_eq!(
        move_files_with_copy(&Path::new(".."), false, &Path::new("/tgt"), vec![]),
        Err(MoveError::NoFileName(Path::new("..")))
    );
}

#[test]
fn move_fails_where_a_symlink_points_elsewhere() {
    let owner = client("aa", "f", "/other", 1.0, &[("f", 3)]);
    let linked = client("bb", "l", "/farm", 1.0, &[("l", 3)]);
    let found = vec![links(&[("/farm/l", "/other/f")])];
    let args = move_args("/src/x", "/tgt", Strategy::Rename);
    assert_eq!(
        args.exec(true, &sizes(&[("/other/f", 3)]), &[owner, linked], &found),
        Err(MoveError::Symlinks(UpdateSymlinksError::NotAPrefix))
    );
}
