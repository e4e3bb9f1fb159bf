use seedfs::path::Path;

#[test]
fn remove_common_suffix_all_unique() {
    // Absolute
    assert_eq!(
        Path::new("/a/b/c").remove_common_suffix(&Path::new("/d/e")),
        None
    );
    assert_eq!(
        Path::new("/a/b/c").remove_common_suffix(&Path::new("/d/e/f")),
        None
    );
    assert_eq!(
        Path::new("/a/b/c").remove_common_suffix(&Path::new("/d/e/f/g")),
        None
    );

    // Relative
    assert_eq!(
        Path::new("/a/b/c").remove_common_suffix(&Path::new("d/e")),
        None
    );
    assert_eq!(
        Path::new("/a/b/c").remove_common_suffix(&Path::new("d/e/f")),
        None
    );
    assert_eq!(
        Path::new("/a/b/c").remove_common_suffix(&Path::new("d/e/f/g")),
        None
    );
}

#[test]
fn remove_common_suffix_partial_shared() {
    assert_eq!(
        Path::new("/a/b/c").remove_common_suffix(&Path::new("/b/c")),
        None,
    );

    assert_eq!(
        Path::new("/a/b/c").remove_common_suffix(&Path::new("b/c")),
        Some(Path::new("/a")),
    );
}

#[test]
fn remove_common_suffix_all_shared() {
    assert_eq!(
        Path::new("/a/b/c").remove_common_suffix(&Path::new("/a/b/c")),
        None,
    );

    assert_eq!(
        Path::new("/a/b/c").remove_common_suffix(&Path::new("a/b/c")),
        Some(Path::new("/")),
    );
}

#[test]
fn remove_common_suffix_of_a_longer_suffix() {
    assert_eq!(
        Path::new("b/c").remove_common_suffix(&Path::new("a/b/c")),
        None
    );
    assert_eq!(Path::new("").remove_common_suffix(&Path::new("")), None);
    assert_eq!(
        Path::new("a").remove_common_suffix(&Path::new("")),
        Some(Path::new("a"))
    );
}

#[test]
fn written_paths_are_read_alike() {
    assert_eq!(Path::new("/a//b/./c/"), Path::new("/a/b/c"));
    assert_eq!(Path::new("a/b"), Path::new("a/b/"));
    assert_eq!(Path::new("./a"), Path::new(".//a/."));
    assert_ne!(Path::new("./a"), Path::new("a"));
    assert_ne!(Path::new("/a"), Path::new("a"));
    assert_ne!(Path::new("a/../b"), Path::new("b"));
    assert_eq!(Path::new("/").len(), 1);
    assert_eq!(Path::new("").len(), 0);
    assert_eq!(Path::new("/./a/..").len(), 3);
    assert_eq!(Path::new("/a/b").part(0), b"/");
    assert_eq!(Path::new("/a/b").part(2), b"b");
    assert_eq!(Path::new(""), Path::empty());
    assert_eq!(Path::from_bytes(b"a/\xff"), Path::new("a").join_bytes(b"\xff"));
}

#[test]
fn to_bytes_writes_what_new_reads() {
    for text in ["", "/", "/a", "a", "a/b", "/a/b/c", ".", "./a", "..", "a/../b", "/.."] {
        assert_eq!(Path::new(text).to_bytes(), text.as_bytes());
    }
    assert_eq!(Path::new("/a//b/./c/").to_bytes(), b"/a/b/c");
    assert_eq!(Path::new("//").to_bytes(), b"/");
    assert_eq!(Path::new("./.").to_bytes(), b".");
}

#[test]
fn join_reads_the_second_path_from_the_first() {
    assert_eq!(Path::new("/a").join(&Path::new("b/c")), Path::new("/a/b/c"));
    assert_eq!(Path::new("/a").join(&Path::new("/b")), Path::new("/b"));
    assert_eq!(Path::new("/a").join(&Path::new("")), Path::new("/a"));
    assert_eq!(Path::new("").join(&Path::new("b")), Path::new("b"));
    assert_eq!(Path::new("").join(&Path::new("./b")), Path::new("./b"));
    assert_eq!(Path::new("a").join(&Path::new("./b")), Path::new("a/b"));
    assert_eq!(Path::new("a").join(&Path::new("..")), Path::new("a/.."));
    assert_eq!(Path::new("a").join_bytes(b"b/c"), Path::new("a/b/c"));
}

#[test]
fn parent_and_file_name() {
    assert_eq!(Path::new("/a/b").parent(), Some(Path::new("/a")));
    assert_eq!(Path::new("/a").parent(), Some(Path::new("/")));
    assert_eq!(Path::new("/").parent(), None);
    assert_eq!(Path::new("a").parent(), Some(Path::new("")));
    assert_eq!(Path::new("").parent(), None);
    assert_eq!(Path::new("a/..").parent(), Some(Path::new("a")));
    assert_eq!(Path::new("/a/b").file_name(), Some(&b"b"[..]));
    assert_eq!(Path::new("/a/..").file_name(), None);
    assert_eq!(Path::new("/").file_name(), None);
    assert_eq!(Path::new(".").file_name(), None);
    assert_eq!(Path::new("").file_name(), None);
    assert_eq!(Path::new("/a/b").file_name_path(), Some(Path::new("b")));
    assert_eq!(Path::new("/").file_name_path(), None);
}

#[test]
fn extension_follows_the_last_dot() {
    assert_eq!(Path::new("a/b.tar.gz").extension(), Some(&b"gz"[..]));
    assert_eq!(Path::new("a/b").extension(), None);
    assert_eq!(Path::new("a/.hidden").extension(), None);
    assert_eq!(Path::new("a/.hidden.txt").extension(), Some(&b"txt"[..]));
    assert_eq!(Path::new("a/b.").extension(), Some(&b""[..]));
    assert_eq!(Path::new("a/..").extension(), None);
    assert_eq!(Path::new("").extension(), None);
}

#[test]
fn strip_prefix_and_starts_with() {
    assert_eq!(
        Path::new("/a/b/c").strip_prefix(&Path::new("/a")),
        Some(Path::new("b/c"))
    );
    assert_eq!(
        Path::new("/a/b").strip_prefix(&Path::new("/a/b")),
        Some(Path::new(""))
    );
    assert_eq!(Path::new("/a/b").strip_prefix(&Path::new("a")), None);
    assert_eq!(Path::new("/ab").strip_prefix(&Path::new("/a")), None);
    assert_eq!(
        Path::new("a/b").strip_prefix(&Path::new("")),
        Some(Path::new("a/b"))
    );
    assert!(Path::new("/a/b").starts_with(&Path::new("/a")));
    assert!(!Path::new("/a/b").starts_with(&Path::new("/a/b/c")));
    assert!(Path::new("/a/b").is_absolute());
    assert!(!Path::new("a/b").is_absolute());
}

#[test]
fn shared_components_are_counted_from_either_end() {
    let path = Path::new("/a/b/c");
    assert_eq!(path.shared_suffix(&Path::new("b/c")), 2);
    assert_eq!(path.shared_suffix(&Path::new("x/c")), 1);
    assert_eq!(path.shared_suffix(&Path::new("c/x")), 0);
    assert_eq!(path.shared_suffix(&Path::new("/a/b/c")), 4);
    assert_eq!(path.shared_prefix(&Path::new("/a/x")), 2);
    assert_eq!(path.shared_prefix(&Path::new("a/b/c")), 0);
    assert_eq!(path.shared_prefix(&Path::new("/a/b/c/d")), 4);
    assert_eq!(path.first_parts(2), Path::new("/a"));
    assert_eq!(path.parts_from(2), Path::new("b/c"));
}

#[test]
fn paths_sort_by_their_components() {
    let before = |a: &str, b: &str| Path::new(a).sorts_before(&Path::new(b));
    assert!(before("/a/b/c", "/a2/b/c"));
    assert!(!before("/a2/b/c", "/a/b/c"));
    assert!(before("a", "a/b"));
    assert!(before("a/b", "a.b"));
    assert!(before("/a", "a"));
    assert!(before("./a", "../a"));
    assert!(before("../a", "-"));
    assert!(before("a/..", "a/-"));
    assert!(before("", "a"));
    assert!(!before("a", "a"));
    assert!(!before("a/b", "a/b/"));
    assert!(Path::new("a/b").same(&Path::new("a//b")));
    assert!(!Path::new("a/b").same(&Path::new("a/c")));
}

const SAMPLES: &[&str] = &[
    "", "/", "//", "/a", "a", "a/", "a/b", "/a/b/c", "/a//b/./c/", ".", "./", "./a", "./.", "/.",
    "/./a", "..", "../a", "a/..", "a/../b", "/..", "a/./b", "a.b", ".a", "a.", "a.b.c", "a/.b",
    "a/b.", "x/y.tar.gz", "-", "a b/c d", "/a/b/../c", "...", "a/.../b",
];

fn std_parts(path: &std::path::Path) -> Vec<Vec<u8>> {
    path.components()
        .map(|component| component.as_os_str().to_str().unwrap().as_bytes().to_vec())
        .collect()
}

fn parts(path: &Path) -> Vec<Vec<u8>> {
    (0..path.len()).map(|i| path.part(i).to_vec()).collect()
}

#[test]
fn paths_are_read_as_the_standard_library_reads_them() {
    for text in SAMPLES {
        let std_path = std::path::Path::new(text);
        let path = Path::new(text);
        assert_eq!(parts(&path), std_parts(std_path), "{text:?}");
        assert_eq!(path.is_absolute(), std_path.is_absolute(), "{text:?}");
        assert_eq!(
            path.parent().map(|parent| parts(&parent)),
            std_path.parent().map(std_parts),
            "{text:?}"
        );
        assert_eq!(
            path.file_name().map(|name| name.to_vec()),
            std_path
                .file_name()
                .map(|name| name.to_str().unwrap().as_bytes().to_vec()),
            "{text:?}"
        );
        assert_eq!(
            path.extension().map(|extension| extension.to_vec()),
            std_path
                .extension()
                .map(|extension| extension.to_str().unwrap().as_bytes().to_vec()),
            "{text:?}"
        );
    }
}

#[test]
fn paths_are_joined_stripped_and_sorted_as_the_standard_library_does() {
    for a in SAMPLES {
        for b in SAMPLES {
            let (std_a, std_b) = (std::path::Path::new(a), std::path::Path::new(b));
            let (path_a, path_b) = (Path::new(a), Path::new(b));
            assert_eq!(
                parts(&path_a.join(&path_b)),
                std_parts(&std_a.join(std_b)),
                "{a:?} {b:?}"
            );
            assert_eq!(
                path_a.strip_prefix(&path_b).map(|rest| parts(&rest)),
                std_a.strip_prefix(std_b).ok().map(std_parts),
                "{a:?} {b:?}"
            );
            assert_eq!(path_a.starts_with(&path_b), std_a.starts_with(std_b), "{a:?} {b:?}");
            assert_eq!(path_a.same(&path_b), std_a == std_b, "{a:?} {b:?}");
            assert_eq!(path_a.sorts_before(&path_b), std_a < std_b, "{a:?} {b:?}");
            assert_eq!(path_a == path_b, std_a == std_b, "{a:?} {b:?}");
        }
    }
}
