use seedfs::path::Path;
use seedfs::pathmap::FileSizes;
use seedfs::sycli::{filter_torrents, FilterTorrentsError, Torrent};

fn sizes(files: &[(&str, u64)]) -> FileSizes {
    let mut sizes = FileSizes::new();
    for (path, size) in files {
        sizes.insert(Path::new(path), *size);
    }
    sizes
}

fn client_torrent(name: &str, files: &[(&str, u64)]) -> Torrent {
    Torrent {
        id: "0123456789012345678901234567890123456789".into(),
        name: name.into(),
        base_path: Path::new("/tmp"),
        progress: 1.0f64.to_bits(),
        tracker_urls: vec!["https://example.com:9999".into()],
        size: 123,
        files: sizes(files),
    }
}

#[test]
fn filter_torrents_with_no_source_files() {
    let torrent = client_torrent("test.txt", &[("test.txt", 123)]);
    assert_eq!(filter_torrents(&[torrent], &FileSizes::new()), Ok(vec![]));
}

#[test]
fn filter_torrents_with_no_torrents() {
    let source_files = sizes(&[("/tmp/test.txt", 123)]);
    assert_eq!(
        filter_torrents(&[], &source_files),
        Err(FilterTorrentsError::DidNotMatchAllSourceFiles {
            matched: 0,
            total: 1
        })
    );
}

#[test]
fn filter_torrents_with_no_torrents_or_source_files() {
    assert_eq!(filter_torrents(&[], &FileSizes::new()), Ok(vec![]));
}

#[test]
fn filter_torrents_normal() {
    let torrent = client_torrent("test.txt", &[("test.txt", 123)]);
    let torrent2 = client_torrent("test2.txt", &[("test2.txt", 123)]);
    let source_files = sizes(&[("/tmp/test.txt", 123)]);
    assert_eq!(
        filter_torrents(&[torrent.clone(), torrent2], &source_files),
        Ok(vec![torrent])
    );
}

#[test]
fn filter_torrents_torrent_with_included_and_non_included_files() {
    let torrent = client_torrent("test.txt", &[("test.txt", 123), ("test2.txt", 123)]);
    let source_files = sizes(&[("/tmp/test.txt", 123)]);
    assert_eq!(
        filter_torrents(&[torrent.clone()], &source_files),
        Err(FilterTorrentsError::TorrentIncludesSourceAndNonSourceFiles(
            torrent.id.clone(),
            vec![Path::new("/tmp/test2.txt")],
        ))
    );
}

#[test]
fn filter_torrent_not_all_source_files_matched() {
    let torrent = client_torrent("test.txt", &[("test.txt", 123)]);
    let source_files = sizes(&[("/tmp/test.txt", 123), ("/tmp/test2.txt", 123)]);
    assert_eq!(
        filter_torrents(&[torrent], &source_files),
        Err(FilterTorrentsError::DidNotMatchAllSourceFiles {
            matched: 1,
            total: 2
        }),
    );
}

#[test]
fn filter_torrents_counts_a_shared_file_once() {
    let torrent = client_torrent("test.txt", &[("test.txt", 123)]);
    let again = client_torrent("again", &[("test.txt", 123)]);
    let source_files = sizes(&[("/tmp/test.txt", 123)]);
    assert_eq!(
        filter_torrents(&[torrent.clone(), again.clone()], &source_files),
        Ok(vec![torrent, again])
    );
}

use seedfs::sycli::{get_torrents, GetTorrentsError, RawFile, RawTorrent};

fn raw_torrent(id: &str, size: u64, files: usize) -> RawTorrent {
    RawTorrent {
        id: id.into(),
        name: format!("name of {id}"),
        path: Path::new("/tmp"),
        progress: 0.25f64.to_bits(),
        tracker_urls: vec!["example.com".into()],
        size,
        files,
    }
}

fn raw_file(torrent_id: &str, path: &str, size: u64) -> RawFile {
    RawFile {
        id: format!("file {path}"),
        torrent_id: torrent_id.into(),
        path: Path::new(path),
        size,
    }
}

#[test]
fn get_torrents_joins_files_to_torrents() {
    let torrents = get_torrents(
        vec![raw_torrent("aa", 7, 2), raw_torrent("bb", 5, 1)],
        vec![
            raw_file("bb", "b.txt", 5),
            raw_file("aa", "x/a.txt", 3),
            raw_file("aa", "x/c.txt", 4),
        ],
    )
    .unwrap();
    assert_eq!(torrents.len(), 2);
    assert_eq!(torrents[0].id, "aa");
    assert_eq!(torrents[0].name, "name of aa");
    assert_eq!(torrents[0].base_path, Path::new("/tmp"));
    assert_eq!(f64::from_bits(torrents[0].progress), 0.25);
    assert_eq!(torrents[0].tracker_urls, vec!["example.com".to_string()]);
    assert_eq!(torrents[0].size, 7);
    assert_eq!(torrents[0].files, sizes(&[("x/a.txt", 3), ("x/c.txt", 4)]));
    assert_eq!(torrents[1].id, "bb");
    assert_eq!(torrents[1].files, sizes(&[("b.txt", 5)]));
    assert!(!torrents[0].is_complete());
    for torrent in &torrents {
        let mut total = 0;
        for i in 0..torrent.files.len() {
            total += torrent.files.size(i);
        }
        assert_eq!(total, torrent.size);
    }
}

#[test]
fn get_torrents_errors() {
    assert_eq!(
        get_torrents(vec![raw_torrent("aa", 3, 1)], vec![raw_file("zz", "a", 3)]),
        Err(GetTorrentsError::NoMatchingTorrent {
            torrent_id: "zz".into(),
            path: Path::new("a"),
        })
    );
    assert_eq!(
        get_torrents(
            vec![raw_torrent("aa", 6, 2)],
            vec![raw_file("aa", "a", 3), raw_file("aa", "a", 3)]
        ),
        Err(GetTorrentsError::DuplicatePath {
            id: "aa".into(),
            path: Path::new("a"),
        })
    );
    assert_eq!(
        get_torrents(vec![raw_torrent("aa", 3, 2)], vec![raw_file("aa", "a", 3)]),
        Err(GetTorrentsError::FileCountMismatch {
            id: "aa".into(),
            got: 1,
            expected: 2,
        })
    );
    assert_eq!(
        get_torrents(vec![raw_torrent("aa", 4, 1)], vec![raw_file("aa", "a", 3)]),
        Err(GetTorrentsError::SizeMismatch {
            id: "aa".into(),
            got: 3,
            expected: 4,
        })
    );
    assert_eq!(
        get_torrents(
            vec![raw_torrent("aa", u64::MAX, 2)],
            vec![raw_file("aa", "a", u64::MAX), raw_file("aa", "b", 1)]
        ),
        Err(GetTorrentsError::SizeMismatch {
            id: "aa".into(),
            got: u64::MAX as u128 + 1,
            expected: u64::MAX,
        })
    );
}

#[test]
fn get_torrents_takes_a_later_entry_of_the_same_id() {
    let torrents = get_torrents(
        vec![raw_torrent("aa", 1, 9), raw_torrent("bb", 0, 0), raw_torrent("aa", 3, 1)],
        vec![raw_file("aa", "a", 3)],
    )
    .unwrap();
    assert_eq!(torrents.len(), 2);
    assert_eq!(torrents[0].id, "aa");
    assert_eq!(torrents[0].size, 3);
    assert_eq!(torrents[1].id, "bb");
}

#[test]
fn complete_is_exactly_one() {
    let mut torrent = client_torrent("test.txt", &[("test.txt", 123)]);
    assert!(torrent.is_complete());
    torrent.progress = 0.999999f64.to_bits();
    assert!(!torrent.is_complete());
    torrent.progress = f64::NAN.to_bits();
    assert!(!torrent.is_complete());
}
