use seedfs::import::ImportArgs;
use seedfs::path::Path;
use seedfs::sampling::{
    failed_paths, failed_pieces, pieces_touching, sample_pieces, select_sample, touched,
};
use seedfs::torrent::{Piece, RawFileEntry, RawInfo, RawMetainfo, Torrent};

fn pieces() -> Vec<Piece> {
    // Files of 10, 1 and 25 bytes in pieces of 4: nine pieces.
    Torrent::from_raw(RawMetainfo {
        announce: "http://example.org/".into(),
        info: RawInfo {
            name: "t".into(),
            files: Some(vec![
                RawFileEntry {
                    length: 10,
                    path: vec!["a".into()],
                },
                RawFileEntry {
                    length: 1,
                    path: vec!["b".into()],
                },
                RawFileEntry {
                    length: 25,
                    path: vec!["c".into()],
                },
            ]),
            length: None,
            piece_length: 4,
            pieces: vec![7; 9 * 20],
        },
    })
    .unwrap()
    .info
    .pieces
}

#[test]
fn touched_names_each_file_once() {
    assert_eq!(
        touched(&pieces()),
        vec![Path::new("t/a"), Path::new("t/b"), Path::new("t/c")]
    );
}

#[test]
fn pieces_touching_a_file() {
    let pieces = pieces();
    assert_eq!(pieces_touching(&pieces, &Path::new("t/a")), vec![0, 1, 2]);
    assert_eq!(pieces_touching(&pieces, &Path::new("t/b")), vec![2]);
    assert_eq!(
        pieces_touching(&pieces, &Path::new("t/c")),
        vec![2, 3, 4, 5, 6, 7, 8]
    );
    assert_eq!(pieces_touching(&pieces, &Path::new("t/d")), vec![]);
}

#[test]
fn select_sample_takes_the_first_of_each_order() {
    let orders = vec![vec![2, 0, 1], vec![2], vec![5, 2, 8, 3]];
    assert_eq!(select_sample(&orders, 2), vec![2, 0, 5]);
    assert_eq!(select_sample(&orders, 0), vec![]);
    assert_eq!(select_sample(&orders, 1), vec![2, 5]);
    assert_eq!(select_sample(&orders, 9), vec![2, 0, 1, 5, 8, 3]);
    assert_eq!(select_sample(&vec![], 3), vec![]);
}

#[test]
fn sample_pieces_covers_every_file() {
    let pieces = pieces();
    for _ in 0..20 {
        let sample = sample_pieces(&pieces, 3);
        assert!(sample.len() <= 9);
        let mut seen = sample.clone();
        seen.sort();
        seen.dedup();
        assert_eq!(seen.len(), sample.len());
        for path in ["t/a", "t/b", "t/c"] {
            let all = pieces_touching(&pieces, &Path::new(path));
            let picked = sample.iter().filter(|index| all.contains(index)).count();
            assert!(picked >= all.len().min(3));
        }
        assert!(sample.contains(&2));
    }
    assert_eq!(sample_pieces(&pieces, 0), vec![]);
    let mut all = sample_pieces(&pieces, 100);
    all.sort();
    assert_eq!(all, vec![0, 1, 2, 3, 4, 5, 6, 7, 8]);
}

#[test]
fn pieces_to_check_are_all_unless_sampling() {
    let pieces = pieces();
    let mut args = ImportArgs {
        symlink_dir: Path::new("/tgt"),
        source: vec![],
        torrents: vec![],
        skip_add: false,
        dry_run: false,
        pieces_to_test: 1,
    };
    assert!(!args.samples());
    assert_eq!(
        args.pieces_to_check(&pieces),
        vec![0, 1, 2, 3, 4, 5, 6, 7, 8]
    );
    args.dry_run = true;
    assert!(args.samples());
    let sample = args.pieces_to_check(&pieces);
    assert!(sample.len() <= 3 && !sample.is_empty());
    args.dry_run = false;
    args.skip_add = true;
    assert!(args.samples());
}

#[test]
fn failed_paths_are_the_files_of_the_failed_pieces() {
    let pieces = pieces();
    assert_eq!(failed_paths(&pieces, &vec![]), vec![]);
    assert_eq!(failed_paths(&pieces, &vec![0]), vec![Path::new("t/a")]);
    assert_eq!(
        failed_paths(&pieces, &vec![8, 2, 0]),
        vec![Path::new("t/c"), Path::new("t/a"), Path::new("t/b")]
    );
}

#[test]
fn failed_pieces_are_those_that_did_not_pass() {
    assert_eq!(
        failed_pieces(&vec![4, 2, 7, 0], &vec![true, false, true, false]),
        vec![2, 0]
    );
    assert_eq!(failed_pieces(&vec![4, 2], &vec![true, true]), vec![]);
    assert_eq!(failed_pieces(&vec![], &vec![]), vec![]);
}
