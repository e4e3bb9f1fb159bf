use seedfs::candidates::{enumerate_files_with_sizes, CandidateIndex};
use seedfs::fs::Walked;
use seedfs::hashing::{CheckError, ReadRequest, SliceRead};
use seedfs::import::{map_torrent, process_torrent, ImportArgs, ImportError};
use seedfs::path::Path;
use seedfs::pathmap::Mapping;
use seedfs::plan::Step;
use seedfs::torrent::{RawFileEntry, RawInfo, RawMetainfo, Torrent};

const ANNOUNCE: &str = "https://tracker.example.com:9999/announce";
const HOST: &str = "tracker.example.com";

fn digests(data: &[u8], piece_length: usize) -> Vec<u8> {
    let mut pieces = Vec::new();
    for chunk in data.chunks(piece_length) {
        pieces.extend_from_slice(&sha1_smol::Sha1::from(chunk).digest().bytes());
    }
    pieces
}

fn single_file_torrent() -> Torrent {
    Torrent::from_raw(RawMetainfo {
        announce: ANNOUNCE.into(),
        info: RawInfo {
            name: "data.bin".into(),
            files: None,
            length: Some(6),
            piece_length: 4,
            pieces: digests(b"abcdef", 4),
        },
    })
    .unwrap()
}

fn multi_file_torrent() -> Torrent {
    Torrent::from_raw(RawMetainfo {
        announce: ANNOUNCE.into(),
        info: RawInfo {
            name: "show".into(),
            files: Some(vec![
                RawFileEntry {
                    length: 4,
                    path: vec!["a".into(), "1.mkv".into()],
                },
                RawFileEntry {
                    length: 4,
                    path: vec!["a".into(), "2.mkv".into()],
                },
            ]),
            length: None,
            piece_length: 4,
            pieces: digests(b"11112222", 4),
        },
    })
    .unwrap()
}

fn index_of(files: &[(&str, &[u8])]) -> CandidateIndex {
    let entries: Vec<Walked> = files
        .iter()
        .map(|(path, data)| Walked::File(Path::new(path), Ok(data.len() as u64)))
        .collect();
    enumerate_files_with_sizes(&entries)
}

fn read(files: &[(&str, &[u8])], request: &Option<ReadRequest>) -> SliceRead {
    let Some(request) = request else {
        return SliceRead::Unmapped;
    };
    let Some((_, data)) = files
        .iter()
        .find(|(path, _)| Path::new(path) == request.source)
    else {
        return SliceRead::Failed("no such file".into());
    };
    let start = (request.offset as usize).min(data.len());
    let end = (start + request.length as usize).min(data.len());
    SliceRead::Data(data[start..end].to_vec())
}

fn failed_pieces(
    torrent: &Torrent,
    mapping: &Mapping,
    checked: &[usize],
    files: &[(&str, &[u8])],
) -> Vec<usize> {
    let mut passed = Vec::new();
    for index in checked {
        let piece = &torrent.info.pieces[*index];
        let reads: Vec<SliceRead> = piece
            .read_requests(mapping)
            .iter()
            .map(|request| read(files, request))
            .collect();
        passed.push(piece.check(&reads).unwrap());
    }
    seedfs::sampling::failed_pieces(&checked.to_vec(), &passed)
}

fn args(skip_add: bool, dry_run: bool) -> ImportArgs {
    ImportArgs {
        symlink_dir: Path::new("/tgt"),
        source: vec![Path::new("/src")],
        torrents: vec![Path::new("/in/the.torrent")],
        skip_add,
        dry_run,
        pieces_to_test: 3,
    }
}

fn import(
    torrent: &Torrent,
    files: &[(&str, &[u8])],
    args: &ImportArgs,
) -> Result<Vec<Step>, ImportError> {
    let mapping = map_torrent(torrent, &index_of(files))?;
    let checked = args.pieces_to_check(&torrent.info.pieces);
    let failed = failed_pieces(torrent, &mapping, &checked, files);
    let planned = args.exec(&args.torrents[0], torrent, &mapping, &failed);
    assert_eq!(
        planned,
        process_torrent(
            &args.torrents[0],
            &args.symlink_dir,
            torrent,
            &mapping,
            &failed,
            args.skip_add,
        )
    );
    planned
}

fn add_torrent(seed_root: &str) -> Step {
    Step::AddTorrent {
        metainfo: Path::new("/in/the.torrent"),
        seed_root: Path::new(seed_root),
    }
}

fn symlink(link: &str, target: &str) -> Step {
    Step::Symlink {
        link: Path::new(link),
        target: Path::new(target),
    }
}

#[test]
fn single_file_direct_seed() {
    let files: &[(&str, &[u8])] = &[("/src/data.bin", b"abcdef")];
    assert_eq!(
        import(&single_file_torrent(), files, &args(false, false)),
        Ok(vec![add_torrent("/src")])
    );
}

#[test]
fn single_file_rename_mirror() {
    let files: &[(&str, &[u8])] = &[("/src/other_name.bin", b"abcdef")];
    let root = format!("/tgt/{HOST}");
    assert_eq!(
        import(&single_file_torrent(), files, &args(false, false)),
        Ok(vec![
            Step::Mkdirp(Path::new(&root)),
            symlink(&format!("{root}/data.bin"), "/src/other_name.bin"),
            add_torrent(&root),
        ])
    );
}

#[test]
fn multi_file_coherent() {
    let files: &[(&str, &[u8])] = &[
        ("/src/show/a/1.mkv", b"1111"),
        ("/src/show/a/2.mkv", b"2222"),
    ];
    assert_eq!(
        import(&multi_file_torrent(), files, &args(false, false)),
        Ok(vec![add_torrent("/src")])
    );
}

#[test]
fn multi_file_mixed_layout() {
    let files: &[(&str, &[u8])] = &[
        ("/poolA/show/a/1.mkv", b"1111"),
        ("/poolB/show/a/2.mkv", b"2222"),
    ];
    let root = format!("/tgt/{HOST}");
    assert_eq!(
        import(&multi_file_torrent(), files, &args(false, false)),
        Ok(vec![
            Step::Mkdirp(Path::new(&format!("{root}/show/a"))),
            symlink(&format!("{root}/show/a/1.mkv"), "/poolA/show/a/1.mkv"),
            symlink(&format!("{root}/show/a/2.mkv"), "/poolB/show/a/2.mkv"),
            add_torrent(&root),
        ])
    );
}

#[test]
fn hash_failure_diagnostic() {
    let files: &[(&str, &[u8])] = &[("/src/data.bin", b"abcdeX")];
    assert_eq!(
        import(&single_file_torrent(), files, &args(true, false)),
        Err(ImportError::HashMismatch(vec![Path::new("data.bin")]))
    );
    assert_eq!(
        import(&single_file_torrent(), files, &args(false, false)),
        Err(ImportError::HashMismatch(vec![Path::new("data.bin")]))
    );

    // The next torrent of the batch is not touched by the failure.
    let files: &[(&str, &[u8])] = &[("/src/data.bin", b"abcdef")];
    assert_eq!(
        import(&single_file_torrent(), files, &args(true, false)),
        Ok(vec![])
    );
}

#[test]
fn skip_add_makes_the_mirror_only() {
    let files: &[(&str, &[u8])] = &[("/src/other_name.bin", b"abcdef")];
    let root = format!("/tgt/{HOST}");
    assert_eq!(
        import(&single_file_torrent(), files, &args(true, false)),
        Ok(vec![
            Step::Mkdirp(Path::new(&root)),
            symlink(&format!("{root}/data.bin"), "/src/other_name.bin"),
        ])
    );
}

#[test]
fn no_candidates_names_the_file() {
    let files: &[(&str, &[u8])] = &[("/src/show/a/1.mkv", b"1111"), ("/src/big", b"12345")];
    let torrent = Torrent::from_raw(RawMetainfo {
        announce: ANNOUNCE.into(),
        info: RawInfo {
            name: "show".into(),
            files: Some(vec![
                RawFileEntry {
                    length: 4,
                    path: vec!["a".into(), "1.mkv".into()],
                },
                RawFileEntry {
                    length: 3,
                    path: vec!["b".into()],
                },
            ]),
            length: None,
            piece_length: 4,
            pieces: digests(b"1111222", 4),
        },
    })
    .unwrap();
    assert_eq!(
        import(&torrent, files, &args(false, false)),
        Err(ImportError::NoCandidates(Path::new("show/b")))
    );
}

#[test]
fn mirror_makes_each_directory_once() {
    let torrent = Torrent::from_raw(RawMetainfo {
        announce: ANNOUNCE.into(),
        info: RawInfo {
            name: "show".into(),
            files: Some(vec![
                RawFileEntry {
                    length: 1,
                    path: vec!["a".into(), "x".into()],
                },
                RawFileEntry {
                    length: 2,
                    path: vec!["b".into(), "y".into()],
                },
                RawFileEntry {
                    length: 3,
                    path: vec!["a".into(), "z".into()],
                },
            ]),
            length: None,
            piece_length: 4,
            pieces: digests(b"122333", 4),
        },
    })
    .unwrap();
    let files: &[(&str, &[u8])] = &[("/p/one", b"1"), ("/q/two", b"22"), ("/r/three", b"333")];
    let root = format!("/tgt/{HOST}");
    assert_eq!(
        import(&torrent, files, &args(false, false)),
        Ok(vec![
            Step::Mkdirp(Path::new(&format!("{root}/show/a"))),
            symlink(&format!("{root}/show/a/x"), "/p/one"),
            Step::Mkdirp(Path::new(&format!("{root}/show/b"))),
            symlink(&format!("{root}/show/b/y"), "/q/two"),
            symlink(&format!("{root}/show/a/z"), "/r/three"),
            add_torrent(&root),
        ])
    );
}

#[test]
fn base_dir_is_the_host_below_the_target() {
    let torrent = single_file_torrent();
    assert_eq!(
        torrent.base_dir(&Path::new("/tgt")),
        Ok(Path::new("/tgt/tracker.example.com"))
    );
}

#[test]
fn check_reports_reads_in_order() {
    let torrent = multi_file_torrent();
    let piece = &torrent.info.pieces[0];
    assert_eq!(
        piece.check(&vec![SliceRead::Unmapped]),
        Err(CheckError::UnmappedSlice(Path::new("show/a/1.mkv")))
    );
    assert_eq!(
        piece.check(&vec![SliceRead::Data(b"11".to_vec())]),
        Err(CheckError::SliceShortRead {
            path: Path::new("show/a/1.mkv"),
            offset: 0,
            got: 2,
            want: 4,
        })
    );
    assert_eq!(
        piece.check(&vec![SliceRead::Failed("denied".into())]),
        Err(CheckError::ReadFailed {
            path: Path::new("show/a/1.mkv"),
            message: "denied".into(),
        })
    );
    assert_eq!(piece.check(&vec![SliceRead::Data(b"1111".to_vec())]), Ok(true));
    assert_eq!(piece.check(&vec![SliceRead::Data(b"1112".to_vec())]), Ok(false));
}

#[test]
fn check_hashes_a_piece_across_files() {
    let torrent = Torrent::from_raw(RawMetainfo {
        announce: ANNOUNCE.into(),
        info: RawInfo {
            name: "two".into(),
            files: Some(vec![
                RawFileEntry {
                    length: 3,
                    path: vec!["x".into()],
                },
                RawFileEntry {
                    length: 3,
                    path: vec!["y".into()],
                },
            ]),
            length: None,
            piece_length: 4,
            pieces: digests(b"abcdef", 4),
        },
    })
    .unwrap();
    let first = &torrent.info.pieces[0];
    assert_eq!(first.file_slices.len(), 2);
    assert_eq!(
        first.check(&vec![
            SliceRead::Data(b"abc".to_vec()),
            SliceRead::Data(b"d".to_vec())
        ]),
        Ok(true)
    );
    // The bytes of the two reads the other way round are another piece.
    assert_eq!(
        first.check(&vec![
            SliceRead::Data(b"dab".to_vec()),
            SliceRead::Data(b"c".to_vec())
        ]),
        Ok(false)
    );
}

use seedfs::import::CrossSeedError;
use seedfs::torrent::{lay_out_pieces, Digest, File, LayoutError};

#[test]
fn a_mirror_needs_a_host() {
    let mut torrent = single_file_torrent();
    torrent.announce = "data:text/plain,nothing".into();
    assert_eq!(
        torrent.base_dir(&Path::new("/tgt")),
        Err(CrossSeedError::NoAnnounceHost)
    );
    let mut renamed = Mapping::new();
    renamed.insert(Path::new("data.bin"), Path::new("/src/other_name.bin"));
    assert_eq!(
        torrent.cross_seed(false, &Path::new("/in/the.torrent"), &Path::new("/tgt"), &renamed),
        Err(CrossSeedError::NoAnnounceHost)
    );
    assert_eq!(
        process_torrent(
            &Path::new("/in/the.torrent"),
            &Path::new("/tgt"),
            &torrent,
            &renamed,
            &vec![],
            false
        ),
        Err(ImportError::NoAnnounceHost)
    );
    // Seeding in place needs none.
    let mut in_place = Mapping::new();
    in_place.insert(Path::new("data.bin"), Path::new("/src/data.bin"));
    assert_eq!(
        torrent.cross_seed(false, &Path::new("/in/the.torrent"), &Path::new("/tgt"), &in_place),
        Ok(vec![add_torrent("/src")])
    );
    assert_eq!(
        Torrent::cross_seed_with_host(
            true,
            &Some("h".into()),
            true,
            &Path::new("/in/the.torrent"),
            &Path::new("/tgt"),
            &renamed
        ),
        Ok(vec![
            Step::Mkdirp(Path::new("/tgt/h")),
            symlink("/tgt/h/data.bin", "/src/other_name.bin"),
        ])
    );
}

#[test]
fn lay_out_pieces_directly() {
    let files = vec![File {
        length: 5,
        path: Path::new("f"),
    }];
    let hashes = vec![Digest::new([1; 20]), Digest::new([2; 20])];
    let pieces = lay_out_pieces(&files, 3, &hashes).unwrap();
    assert_eq!(pieces.len(), 2);
    assert_eq!(pieces[1].hash, Digest::new([2; 20]));
    assert_eq!(pieces[1].file_slices[0].offset, 3);
    assert_eq!(pieces[1].file_slices[0].length, 2);
    assert_eq!(
        lay_out_pieces(&files, 2, &hashes),
        Err(LayoutError::Mismatch)
    );
    assert_eq!(
        lay_out_pieces(&files, 3, &vec![]),
        Err(LayoutError::Mismatch)
    );
}
