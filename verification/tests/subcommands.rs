use seedfs::config::{ApiKeys, Config};
use seedfs::episodes::{MakeEpisodeLinksArgs, MakeEpisodeLinksError, OMDbResult};
use seedfs::find::{FindArgs, FindError};
use seedfs::fs::{CollectFilesError, Walked};
use seedfs::organize::OrganizeEpisodesArgs;
use seedfs::path::Path;
use seedfs::pathmap::{FileSizes, Mapping};
use seedfs::plan::Step;
use seedfs::sycli::{FilterTorrentsError, Torrent};
use seedfs::update_paths::UpdatePathsArgs;

fn client(id: &str, base_path: &str, files: &[(&str, u64)]) -> Torrent {
    let mut sizes = FileSizes::new();
    for (path, size) in files {
        sizes.insert(Path::new(path), *size);
    }
    Torrent {
        id: id.into(),
        name: id.into(),
        base_path: Path::new(base_path),
        progress: 1.0f64.to_bits(),
        tracker_urls: vec![],
        size: files.iter().map(|(_, size)| size).sum(),
        files: sizes,
    }
}

fn links(pairs: &[(&str, &str)]) -> Mapping {
    let mut links = Mapping::new();
    for (link, target) in pairs {
        links.insert(Path::new(link), Path::new(target));
    }
    links
}

#[test]
fn find_names_the_torrents_of_a_path() {
    let args = FindArgs {
        path: Path::new("/data/show"),
    };
    let entries = vec![
        Walked::Dir(Path::new("/data/show")),
        Walked::File(Path::new("/data/show/a"), Ok(1)),
        Walked::File(Path::new("/data/show/b"), Ok(2)),
    ];
    let torrents = [
        client("aa", "/data", &[("show/a", 1)]),
        client("bb", "/other", &[("x", 1)]),
        client("cc", "/data/show", &[("b", 2)]),
    ];
    assert_eq!(
        args.exec(&entries, &torrents),
        Ok(vec!["aa".to_string(), "cc".to_string()])
    );
    assert_eq!(
        args.exec(&entries, &torrents[..2]),
        Err(FindError::Torrents(
            FilterTorrentsError::DidNotMatchAllSourceFiles {
                matched: 1,
                total: 2
            }
        ))
    );
    assert_eq!(
        args.exec(&vec![], &torrents),
        Err(FindError::Files(CollectFilesError::NoFiles))
    );
}

#[test]
fn update_paths_rebases_torrents_and_links() {
    let args = UpdatePathsArgs {
        source: Path::new("/old"),
        target: Path::new("/new"),
        symlink_dir: vec![Path::new("/farm")],
    };
    let torrents = [
        client("aa", "/old/show", &[("a", 1)]),
        client("bb", "/elsewhere", &[("b", 1)]),
        client("cc", "/old", &[("c", 1)]),
    ];
    let found = vec![
        links(&[("/farm/x", "/old/show/a"), ("/farm/y", "/elsewhere/b")]),
        links(&[("/farm2/z", "/old/c")]),
    ];
    assert_eq!(
        args.exec(&torrents, &found),
        vec![
            Step::MoveTorrent {
                id: "aa".into(),
                base_path: Path::new("/new/show"),
            },
            Step::MoveTorrent {
                id: "cc".into(),
                base_path: Path::new("/new"),
            },
            Step::CreateOrUpdateSymlink {
                link: Path::new("/farm/x"),
                target: Path::new("/new/show/a"),
            },
            Step::CreateOrUpdateSymlink {
                link: Path::new("/farm2/z"),
                target: Path::new("/new/c"),
            },
        ]
    );
    assert_eq!(args.exec(&[], &vec![]), vec![]);
}

#[test]
fn organize_moves_an_episode_into_the_directory_of_its_release() {
    let name = "Some.Show.S01E02.The.Title.1080p.AMZN.WEB-DL.DDP5.1.H.264-GRP.mkv";
    let file = format!("/downloads/{name}");
    let args = OrganizeEpisodesArgs {
        base_dir: Path::new("/library"),
        dry_run: false,
        files: vec![Path::new(&file), Path::new("/downloads/notes.txt")],
    };
    let dir = "/library/Some.Show.S01.1080p.AMZN.WEB-DL.DDP5.1.H.264-GRP";
    let torrents = [
        client("aa", "/downloads", &[(name, 5)]),
        // Not among the files.
        client("bb", "/elsewhere", &[(name, 5)]),
        // Not the name of an episode.
        client("cc", "/downloads", &[("notes.txt", 1)]),
        // More than one file.
        client("dd", "/downloads", &[(name, 5), ("notes.txt", 1)]),
    ];
    assert_eq!(
        args.exec(&torrents),
        vec![
            Step::CreateDir(Path::new(dir)),
            Step::HardLink {
                existing: Path::new(&file),
                link: Path::new(&format!("{dir}/{name}")),
            },
            Step::MoveTorrent {
                id: "aa".into(),
                base_path: Path::new(dir),
            },
            Step::RemoveFile(Path::new(&file)),
        ]
    );
    assert_eq!(args.organize(&torrents[2]), vec![]);
}

#[test]
fn organize_passes_over_names_that_are_no_text() {
    let mut sizes = FileSizes::new();
    sizes.insert(Path::from_bytes(b"S01E01.\xff.720p.x.WEB-DL.y.mkv"), 1);
    let torrent = Torrent {
        id: "aa".into(),
        name: "aa".into(),
        base_path: Path::new("/d"),
        progress: 1.0f64.to_bits(),
        tracker_urls: vec![],
        size: 1,
        files: sizes,
    };
    let args = OrganizeEpisodesArgs {
        base_dir: Path::new("/library"),
        dry_run: false,
        files: vec![Path::from_bytes(b"/d/S01E01.\xff.720p.x.WEB-DL.y.mkv")],
    };
    assert_eq!(args.exec(&[torrent]), vec![]);
}

fn episode_args(files: &[&str]) -> MakeEpisodeLinksArgs {
    MakeEpisodeLinksArgs {
        files: files.iter().map(|file| Path::new(file)).collect(),
        imdb_id: "tt0245429".into(),
        season: 2,
    }
}

#[test]
fn episode_links_expect_what_the_first_file_has() {
    assert_eq!(
        episode_args(&["show/b.mkv", "show/a.mkv"]).expectations(),
        Ok((Path::new("show"), "mkv".to_string()))
    );
    assert_eq!(
        episode_args(&[]).expectations(),
        Err(MakeEpisodeLinksError::NoFiles)
    );
    assert_eq!(
        episode_args(&["/"]).expectations(),
        Err(MakeEpisodeLinksError::NoParent(Path::new("/")))
    );
    assert_eq!(
        episode_args(&["show/a"]).expectations(),
        Err(MakeEpisodeLinksError::NoExtension(Path::new("show/a")))
    );
    let odd = MakeEpisodeLinksArgs {
        files: vec![Path::from_bytes(b"show/a.\xff")],
        imdb_id: "tt0245429".into(),
        season: 2,
    };
    assert_eq!(
        odd.expectations(),
        Err(MakeEpisodeLinksError::NonUtf8Extension(Path::from_bytes(
            b"show/a.\xff"
        )))
    );
    assert!(matches!(
        episode_args(&["show/a.mkv", "other/b.mkv"]).expectations(),
        Err(MakeEpisodeLinksError::Mismatch(_))
    ));
    assert!(matches!(
        episode_args(&["show/a.mkv", "show/b.mp4"]).expectations(),
        Err(MakeEpisodeLinksError::Mismatch(_))
    ));
}

#[test]
fn episode_links_follow_the_order_of_the_names() {
    let args = episode_args(&["show/b.mkv", "show/c.mkv", "show/a.mkv"]);
    let names = args.sorted_file_names().unwrap();
    assert_eq!(
        names,
        vec![Path::new("a.mkv"), Path::new("b.mkv"), Path::new("c.mkv")]
    );
    let result = OMDbResult {
        title: "Spirited Away".into(),
        year: "2001".into(),
    };
    assert_eq!(
        args.links(&result, &Path::new("/abs/show"), "mkv", &names),
        vec![
            Step::Symlink {
                link: Path::new("/abs/show/Spirited.Away.S02E01.mkv"),
                target: Path::new("a.mkv"),
            },
            Step::Symlink {
                link: Path::new("/abs/show/Spirited.Away.S02E02.mkv"),
                target: Path::new("b.mkv"),
            },
            Step::Symlink {
                link: Path::new("/abs/show/Spirited.Away.S02E03.mkv"),
                target: Path::new("c.mkv"),
            },
        ]
    );
    assert_eq!(
        episode_args(&["show/a.mkv", "show/.."]).sorted_file_names(),
        Err(MakeEpisodeLinksError::NoFileName(Path::new("show/..")))
    );
}

#[test]
fn config_gives_the_key() {
    let config = Config {
        api_keys: ApiKeys {
            omdb: Some("key".into()),
        },
    };
    assert_eq!(config.omdb_key(), Some(&"key".to_string()));
    let config = Config {
        api_keys: ApiKeys { omdb: None },
    };
    assert_eq!(config.omdb_key(), None);
}

#[test]
fn episode_links_are_planned_in_one_go() {
    let args = episode_args(&["show/b.mkv", "show/a.mkv"]);
    let result = OMDbResult {
        title: "Title".into(),
        year: "2001".into(),
    };
    assert_eq!(
        args.exec(&result, &Path::new("/abs/show")),
        Ok(vec![
            Step::Symlink {
                link: Path::new("/abs/show/Title.S02E01.mkv"),
                target: Path::new("a.mkv"),
            },
            Step::Symlink {
                link: Path::new("/abs/show/Title.S02E02.mkv"),
                target: Path::new("b.mkv"),
            },
        ])
    );
    assert_eq!(
        episode_args(&[]).exec(&result, &Path::new("/abs/show")),
        Err(MakeEpisodeLinksError::NoFiles)
    );
}
