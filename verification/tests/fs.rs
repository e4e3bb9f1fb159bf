use seedfs::fs::{
    collect_files, collect_symlinks, create_or_update_symlink, new_instance, CollectFilesError,
    CollectSymlinksError, Effector, SymlinkAttempt, SymlinkNext, Walked,
};
use seedfs::path::Path;
use seedfs::pathmap::{FileSizes, Mapping};

fn file(path: &str, size: u64) -> Walked {
    Walked::File(Path::new(path), Ok(size))
}

#[test]
fn collect_files_empty_dir() {
    let root = Path::new("/tmp/empty");
    assert!(matches!(
        collect_files(&root, &vec![Walked::Dir(Path::new("/tmp/empty"))]),
        Err(CollectFilesError::NoFiles)
    ));
    assert!(matches!(
        collect_files(&root, &vec![]),
        Err(CollectFilesError::NoFiles)
    ));
}

#[test]
fn collect_files_with_file() {
    let test_file = Path::new("/tmp/dir/test_file");
    let files = collect_files(&test_file, &vec![file("/tmp/dir/test_file", 0)]);
    assert!(files.is_ok_and(|files| files.contains_key(&test_file)));
}

#[test]
fn collect_files_with_dir() {
    let root = Path::new("/tmp/dir");
    let entries = vec![
        Walked::Dir(Path::new("/tmp/dir")),
        file("/tmp/dir/test_file", 7),
        Walked::Dir(Path::new("/tmp/dir/sub")),
        file("/tmp/dir/sub/other", 9),
    ];
    let files = collect_files(&root, &entries).unwrap();
    assert_eq!(files.len(), 2);
    assert!(files.contains_key(&Path::new("/tmp/dir/test_file")));
    assert_eq!(files.get(&Path::new("/tmp/dir/test_file")), Some(7));
    assert_eq!(files.get(&Path::new("/tmp/dir/sub/other")), Some(9));
    assert_eq!(files.get(&Path::new("/tmp/dir/sub")), None);
    let mut expected = FileSizes::new();
    expected.insert(Path::new("/tmp/dir/test_file"), 7);
    expected.insert(Path::new("/tmp/dir/sub/other"), 9);
    assert_eq!(files, expected);
}

#[test]
fn collect_files_with_symlink_fails() {
    let root = Path::new("/tmp/dir");
    let entries = vec![
        Walked::Dir(Path::new("/tmp/dir")),
        file("/tmp/dir/test_file", 0),
        Walked::Symlink(
            Path::new("/tmp/dir/test_symlink"),
            Ok(Path::new("/tmp/dir/test_file")),
        ),
    ];
    assert_eq!(
        collect_files(&root, &entries),
        Err(CollectFilesError::NonFilePath(
            Path::new("/tmp/dir"),
            Path::new("/tmp/dir/test_symlink")
        ))
    );
}

#[test]
fn collect_files_reports_the_first_failure() {
    let root = Path::new("/d");
    assert_eq!(
        collect_files(
            &root,
            &vec![
                file("/d/a", 1),
                Walked::Failed("denied".into()),
                Walked::Other(Path::new("/d/socket"))
            ]
        ),
        Err(CollectFilesError::WalkDir("denied".into()))
    );
    assert_eq!(
        collect_files(
            &root,
            &vec![file("/d/a", 1), Walked::File(Path::new("/d/b"), Err("gone".into()))]
        ),
        Err(CollectFilesError::WalkDir("gone".into()))
    );
    assert_eq!(
        collect_files(&root, &vec![file("/d/a", 1), file("/d//a", 2)]),
        Err(CollectFilesError::DuplicateEntry(Path::new("/d/a")))
    );
    assert_eq!(
        collect_files(&root, &vec![Walked::Other(Path::new("/d/socket"))]),
        Err(CollectFilesError::NonFilePath(
            Path::new("/d"),
            Path::new("/d/socket")
        ))
    );
}

#[test]
fn collect_symlinks_no_symlinks() {
    assert!(collect_symlinks(&vec![Walked::Dir(Path::new("/tmp/dir"))])
        .unwrap()
        .len()
        == 0);
    assert!(collect_symlinks(&vec![
        Walked::Dir(Path::new("/tmp/dir")),
        file("/tmp/dir/file", 8)
    ])
    .unwrap()
    .len()
        == 0);
}

#[test]
fn collect_symlinks_regular() {
    let entries = vec![
        Walked::Dir(Path::new("/tmp/dir")),
        Walked::Symlink(
            Path::new("/tmp/dir/symlink"),
            Ok(Path::new("/tmp/dir/file")),
        ),
    ];
    let mut expected = Mapping::new();
    expected.insert(Path::new("/tmp/dir/symlink"), Path::new("/tmp/dir/file"));
    assert_eq!(collect_symlinks(&entries).unwrap(), expected);
}

#[test]
fn collect_symlinks_failures() {
    assert_eq!(
        collect_symlinks(&vec![
            Walked::Symlink(Path::new("/l"), Ok(Path::new("/t"))),
            Walked::Failed("denied".into())
        ]),
        Err(CollectSymlinksError::WalkDir("denied".into()))
    );
    assert_eq!(
        collect_symlinks(&vec![Walked::Symlink(Path::new("/l"), Err("gone".into()))]),
        Err(CollectSymlinksError::Io("gone".into()))
    );
}

#[test]
fn create_or_update_symlink_basic() {
    assert_eq!(
        create_or_update_symlink(SymlinkAttempt::Created),
        SymlinkNext::Done
    );
    assert_eq!(
        create_or_update_symlink(SymlinkAttempt::AlreadyExists),
        SymlinkNext::RemoveAndRetry
    );
    assert_eq!(
        create_or_update_symlink(SymlinkAttempt::Failed("denied".into())),
        SymlinkNext::Fail("denied".into())
    );
}

#[test]
fn new_instance_follows_dry_run() {
    assert_eq!(new_instance(true), Effector::DryRun);
    assert_eq!(new_instance(false), Effector::Live);
}
