//! Naming files as the episodes of a series.

use vstd::prelude::*;
use vstd::utf8::encode_utf8;
use crate::path::{
    Path, PathModel, bytes_eq, path_extension, path_file_name, path_join, path_lt, path_order,
    path_parent, lemma_path_order_strict_total,
};
use crate::pathmap::path_models;
use crate::plan::{Step, StepModel};
use crate::text::{
    as_text, push_replaced, push_text, push_two_digits, read_text, replaced, two_digits,
};

verus! {

/// Files to link under the names of a season's episodes.
pub struct MakeEpisodeLinksArgs {
    /// The files to create episode links for.
    pub files: Vec<Path>,
    /// The IMDB id of the title, such as `tt0245429`.
    pub imdb_id: String,
    pub season: u32,
}

/// What the title database answers for a title.
#[derive(Debug)]
pub struct OMDbResult {
    pub title: String,
    pub year: String,
}

/// The name of an episode: the title with a dot for every space, then `.S`,
/// the season, `E`, the episode, a dot and the extension. Season and episode
/// are written with two digits at least.
pub open spec fn episode_name(title: Seq<char>, season: nat, episode: nat, extension: Seq<char>) -> Seq<
    char,
> {
    replaced(title, ' ', '.') + seq!['.', 'S'] + two_digits(season) + seq!['E'] + two_digits(
        episode,
    ) + seq!['.'] + extension
}

impl OMDbResult {
    /// The name under which an episode is linked: see [`episode_name`].
    pub fn get_name(&self, season: u32, episode: u32, extension: &str) -> (r: String)
        ensures
            r@ == episode_name(self.title@, season as nat, episode as nat, extension@),
    {
        let mut name = String::new();
        push_replaced(&mut name, self.title.as_str(), ' ', '.');
        name.push('.');
        name.push('S');
        push_two_digits(&mut name, season);
        name.push('E');
        push_two_digits(&mut name, episode);
        name.push('.');
        push_text(&mut name, extension);
        assert(name@ =~= episode_name(self.title@, season as nat, episode as nat, extension@));
        name
    }
}

/// Why files cannot be linked as episodes of one season.
#[derive(Debug, PartialEq, Eq)]
#[allow(inconsistent_fields)]
pub enum CheckMatchingParentAndExtensionError {
    MismatchedParents { actual: Path, expected: Path },
    MismatchedExtensions { actual: Path, expected: String },
}

/// Whether a path lies in the expected directory.
pub open spec fn parent_matches(path: PathModel, expected_parent: PathModel) -> bool {
    path_parent(path) == Some(expected_parent)
}

/// Whether a path has the expected extension.
pub open spec fn extension_matches(path: PathModel, expected_extension: Seq<char>) -> bool {
    path_extension(path) == Some(encode_utf8(expected_extension))
}

/// Checks that every path lies in `expected_parent` and has the extension
/// `expected_extension`. It stops at the first path that has not, and
/// says of it what is wrong: the parent where both are.
pub fn check_matching_parent_and_extension(
    paths: &[Path],
    expected_parent: &Path,
    expected_extension: &str,
) -> (r: Result<(), CheckMatchingParentAndExtensionError>)
    ensures
        match r {
            Ok(()) => forall|i: int|
                0 <= i < paths@.len() ==> parent_matches(#[trigger] paths@[i]@, expected_parent@)
                    && extension_matches(paths@[i]@, expected_extension@),
            Err(e) => exists|i: int|
                {
                    &&& 0 <= i < paths@.len()
                    &&& forall|j: int|
                        0 <= j < i ==> parent_matches(#[trigger] paths@[j]@, expected_parent@)
                            && extension_matches(paths@[j]@, expected_extension@)
                    &&& if parent_matches(#[trigger] paths@[i]@, expected_parent@) {
                        &&& !extension_matches(paths@[i]@, expected_extension@)
                        &&& e matches CheckMatchingParentAndExtensionError::MismatchedExtensions {
                            actual,
                            expected,
                        }
                        &&& actual@ == paths@[i]@
                        &&& expected@ == expected_extension@
                    } else {
                        &&& e matches CheckMatchingParentAndExtensionError::MismatchedParents {
                            actual,
                            expected,
                        }
                        &&& actual@ == paths@[i]@
                        &&& expected@ == expected_parent@
                    }
                },
        },
{
    let mut i: usize = 0;
    while i < paths.len()
        invariant
            i <= paths@.len(),
            forall|j: int|
                0 <= j < i ==> parent_matches(#[trigger] paths@[j]@, expected_parent@)
                    && extension_matches(paths@[j]@, expected_extension@),
        decreases paths@.len() - i,
    {
        let path = &paths[i];
        let parent_ok = match path.parent() {
            Some(parent) => parent.same(expected_parent),
            None => false,
        };
        if !parent_ok {
            return Err(
                CheckMatchingParentAndExtensionError::MismatchedParents {
                    actual: path.clone(),
                    expected: expected_parent.clone(),
                },
            );
        }
        let extension_ok = match path.extension() {
            Some(extension) => bytes_eq(extension, expected_extension.as_bytes()),
            None => false,
        };
        if !extension_ok {
            let mut expected = String::new();
            push_text(&mut expected, expected_extension);
            assert(expected@ =~= expected_extension@);
            return Err(
                CheckMatchingParentAndExtensionError::MismatchedExtensions {
                    actual: path.clone(),
                    expected,
                },
            );
        }
        i += 1;
    }
    Ok(())
}

/// Why no episode links can be made.
#[derive(Debug, PartialEq, Eq)]
pub enum MakeEpisodeLinksError {
    /// No file was given.
    NoFiles,
    /// The first file has no parent.
    NoParent(Path),
    /// The first file has no extension.
    NoExtension(Path),
    /// The extension of the first file is no text.
    NonUtf8Extension(Path),
    /// Another file lies elsewhere or has another extension.
    Mismatch(CheckMatchingParentAndExtensionError),
    /// The file has no name.
    NoFileName(Path),
}

/// Whether no path comes before one that stands before it.
pub open spec fn is_sorted(paths: Seq<PathModel>) -> bool {
    forall|i: int, j: int| 0 <= i < j < paths.len() ==> !path_lt(paths[j], paths[i])
}

/// The paths in their order: see [`path_lt`]. Paths that are the same stay
/// as they came.
pub fn sort_paths(paths: &Vec<Path>) -> (r: Vec<Path>)
    ensures
        is_sorted(path_models(r@)),
        path_models(r@).to_multiset() == path_models(paths@).to_multiset(),
{
    let ghost models = path_models(paths@);
    let mut out: Vec<Path> = Vec::new();
    let n = paths.len();
    let mut i: usize = 0;
    assert(path_models(out@) =~= Seq::<PathModel>::empty());
    assert(models.take(0) =~= Seq::<PathModel>::empty());
    while i < n
        invariant
            n == models.len(),
            n == paths@.len(),
            models == path_models(paths@),
            i <= n,
            is_sorted(path_models(out@)),
            path_models(out@).to_multiset() == models.take(i as int).to_multiset(),
        decreases n - i,
    {
        let path = paths[i].clone();
        assert(path@ == models[i as int]);
        let ghost sorted = path_models(out@);
        let mut at: usize = 0;
        while at < out.len() && !path.sorts_before(&out[at])
            invariant
                at <= out@.len(),
                sorted == path_models(out@),
                forall|t: int| 0 <= t < at ==> !path_lt(path@, #[trigger] sorted[t]),
            decreases out@.len() - at,
        {
            assert(sorted[at as int] == out@[at as int]@);
            at += 1;
        }
        proof {
            if at < out@.len() {
                assert(sorted[at as int] == out@[at as int]@);
                assert(path_lt(path@, sorted[at as int]));
            }
        }
        out.insert(at, path);
        proof {
            let now = path_models(out@);
            assert(now =~= sorted.insert(at as int, path@));
            vstd::seq_lib::to_multiset_insert(sorted, at as int, path@);
            assert(models.take(i + 1) =~= models.take(i as int).push(path@));
            models.take(i as int).to_multiset_ensures();
            lemma_path_order_strict_total();
            let lt = path_order();
            assert forall|a: int, b: int| 0 <= a < b < now.len() implies !path_lt(now[b], now[a]) by {
                if b == at {
                    assert(now[a] == sorted[a]);
                } else if a == at {
                    assert(now[b] == sorted[b - 1]);
                    if b - 1 > at {
                        assert(!path_lt(sorted[b - 1], sorted[at as int]));
                    }
                    assert(lt(now[a], sorted[at as int]) == path_lt(now[a], sorted[at as int]));
                    assert(lt(now[b], now[a]) == path_lt(now[b], now[a]));
                    assert(lt(now[b], sorted[at as int]) == path_lt(now[b], sorted[at as int]));
                } else {
                    let a0 = if a < at { a } else { a - 1 };
                    let b0 = if b < at { b } else { b - 1 };
                    assert(now[a] == sorted[a0]);
                    assert(now[b] == sorted[b0]);
                }
            }
        }
        i += 1;
    }
    assert(models.take(n as int) =~= models);
    out
}

/// The names of the files, each where its file stands.
pub open spec fn file_names_of(files: Seq<PathModel>) -> Seq<PathModel> {
    Seq::new(files.len(), |i: int| seq![files[i].last()])
}

/// The link of episode `i + 1`, which points at `file_names[i]`.
pub open spec fn episode_link(
    parent: PathModel,
    title: Seq<char>,
    season: nat,
    extension: Seq<char>,
    file_names: Seq<PathModel>,
    i: int,
) -> StepModel {
    StepModel::Symlink {
        link: path_join(
            parent,
            crate::path::parse_path(
                encode_utf8(episode_name(title, season, (i + 1) as nat, extension)),
            ),
        ),
        target: file_names[i],
    }
}

/// What is wrong with the files where the failure is `e`.
pub open spec fn unmet(files: Seq<Path>, e: MakeEpisodeLinksError) -> bool {
    match e {
        MakeEpisodeLinksError::NoFiles => files.len() == 0,
        MakeEpisodeLinksError::NoParent(path) => {
            &&& files.len() > 0
            &&& path@ == files[0]@
            &&& path_parent(path@) is None
        },
        MakeEpisodeLinksError::NoExtension(path) => {
            &&& files.len() > 0
            &&& path@ == files[0]@
            &&& path_parent(path@) is Some
            &&& path_extension(path@) is None
        },
        MakeEpisodeLinksError::NonUtf8Extension(path) => {
            &&& files.len() > 0
            &&& path@ == files[0]@
            &&& path_parent(path@) is Some
            &&& path_extension(path@) is Some
            &&& as_text(path_extension(path@)->Some_0) is None
        },
        MakeEpisodeLinksError::Mismatch(_) => exists|i: int|
            1 <= i < files.len() && !(parent_matches(
                #[trigger] files[i]@,
                path_parent(files[0]@)->Some_0,
            ) && path_extension(files[i]@) == path_extension(files[0]@)),
        MakeEpisodeLinksError::NoFileName(_) => false,
    }
}

impl MakeEpisodeLinksArgs {
    /// The directory and the extension of the first file, which all files
    /// must share.
    ///
    /// They are not given where there is no file; where the first file has
    /// no parent, no extension, or an extension that is no text; and where
    /// another file does not share them.
    pub fn expectations(&self) -> (r: Result<(Path, String), MakeEpisodeLinksError>)
        ensures
            match r {
                Ok((parent, extension)) => {
                    &&& self.files@.len() > 0
                    &&& path_parent(self.files@[0]@) == Some(parent@)
                    &&& path_extension(self.files@[0]@) == Some(encode_utf8(extension@))
                    &&& forall|i: int|
                        1 <= i < self.files@.len() ==> parent_matches(
                            #[trigger] self.files@[i]@,
                            parent@,
                        ) && extension_matches(self.files@[i]@, extension@)
                },
                Err(e) => unmet(self.files@, e),
            },
    {
        if self.files.len() == 0 {
            return Err(MakeEpisodeLinksError::NoFiles);
        }
        let first = &self.files[0];
        let parent = match first.parent() {
            Some(parent) => parent,
            None => {
                return Err(MakeEpisodeLinksError::NoParent(first.clone()));
            },
        };
        let extension = match first.extension() {
            Some(extension) => extension,
            None => {
                return Err(MakeEpisodeLinksError::NoExtension(first.clone()));
            },
        };
        let extension = match read_text(extension) {
            Some(text) => {
                proof {
                    vstd::utf8::decode_utf8_encode_utf8(extension@);
                }
                text
            },
            None => {
                return Err(MakeEpisodeLinksError::NonUtf8Extension(first.clone()));
            },
        };
        let rest = vstd::slice::slice_subrange(self.files.as_slice(), 1, self.files.len());
        match check_matching_parent_and_extension(rest, &parent, extension) {
            Ok(()) => {},
            Err(e) => {
                proof {
                    let i = choose|i: int|
                        0 <= i < rest@.len() && !(parent_matches(#[trigger] rest@[i]@, parent@)
                            && extension_matches(rest@[i]@, extension@));
                    assert(rest@[i] == self.files@[i + 1]);
                    assert(!(parent_matches(self.files@[i + 1]@, parent@) && path_extension(
                        self.files@[i + 1]@,
                    ) == path_extension(self.files@[0]@)));
                }
                return Err(MakeEpisodeLinksError::Mismatch(e));
            },
        }
        let mut owned = String::new();
        push_text(&mut owned, extension);
        assert(owned@ =~= extension@);
        assert forall|i: int| 1 <= i < self.files@.len() implies parent_matches(
            #[trigger] self.files@[i]@,
            parent@,
        ) && extension_matches(self.files@[i]@, owned@) by {
            assert(rest@[i - 1] == self.files@[i]);
            assert(parent_matches(rest@[i - 1]@, parent@));
        }
        Ok((parent, owned))
    }

    /// The names of the files, in order: see [`path_lt`]. A file without a
    /// name stops it: the first of them is named.
    pub fn sorted_file_names(&self) -> (r: Result<Vec<Path>, MakeEpisodeLinksError>)
        ensures
            match r {
                Ok(names) => {
                    &&& forall|i: int|
                        0 <= i < self.files@.len() ==> path_file_name(
                            #[trigger] self.files@[i]@,
                        ) is Some
                    &&& is_sorted(path_models(names@))
                    &&& path_models(names@).to_multiset() == file_names_of(
                        path_models(self.files@),
                    ).to_multiset()
                },
                Err(MakeEpisodeLinksError::NoFileName(path)) => exists|i: int|
                    {
                        &&& 0 <= i < self.files@.len()
                        &&& path@ == (#[trigger] self.files@[i])@
                        &&& path_file_name(path@) is None
                        &&& forall|j: int|
                            0 <= j < i ==> path_file_name((#[trigger] self.files@[j])@) is Some
                    },
                Err(_) => false,
            },
    {
        let mut names: Vec<Path> = Vec::new();
        let mut i: usize = 0;
        while i < self.files.len()
            invariant
                i <= self.files@.len(),
                names@.len() == i,
                forall|t: int|
                    0 <= t < i ==> path_file_name((#[trigger] self.files@[t])@) is Some
                        && names@[t]@ == seq![self.files@[t]@.last()],
            decreases self.files@.len() - i,
        {
            match self.files[i].file_name_path() {
                Some(name) => {
                    names.push(name);
                },
                None => {
                    return Err(MakeEpisodeLinksError::NoFileName(self.files[i].clone()));
                },
            }
            i += 1;
        }
        assert(path_models(names@) =~= file_names_of(path_models(self.files@)));
        Ok(sort_paths(&names))
    }

    /// Plans the links for the files, given what the title database says of
    /// the title and where the links go: the files are checked as by
    /// [`MakeEpisodeLinksArgs::expectations`], their names are put in order,
    /// and each gets the link of the next episode.
    pub fn exec(&self, result: &OMDbResult, parent: &Path) -> (r: Result<
        Vec<Step>,
        MakeEpisodeLinksError,
    >)
        requires
            self.files@.len() < u32::MAX,
        ensures
            match r {
                Ok(steps) => {
                    &&& steps@.len() == self.files@.len()
                    &&& self.files@.len() > 0
                    &&& path_extension(self.files@[0]@) is Some
                    &&& exists|names: Seq<PathModel>, extension: Seq<char>|
                        {
                            &&& path_extension(self.files@[0]@) == Some(encode_utf8(extension))
                            &&& is_sorted(names)
                            &&& names.to_multiset() == file_names_of(
                                path_models(self.files@),
                            ).to_multiset()
                            &&& forall|i: int|
                                0 <= i < steps@.len() ==> (#[trigger] steps@[i])@ == episode_link(
                                    parent@,
                                    result.title@,
                                    self.season as nat,
                                    extension,
                                    names,
                                    i,
                                )
                        }
                },
                Err(e) => unmet(self.files@, e),
            },
    {
        let (_, extension) = match self.expectations() {
            Ok(expected) => expected,
            Err(e) => {
                return Err(e);
            },
        };
        let names = match self.sorted_file_names() {
            Ok(names) => names,
            Err(e) => {
                proof {
                    assert forall|i: int| 0 <= i < self.files@.len() implies path_file_name(
                        (#[trigger] self.files@[i])@,
                    ) is Some by {
                        if i > 0 {
                            assert(extension_matches(self.files@[i]@, extension@));
                        }
                    }
                }
                return Err(e);
            },
        };
        proof {
            path_models(names@).to_multiset_ensures();
            file_names_of(path_models(self.files@)).to_multiset_ensures();
        }
        let steps = self.links(result, parent, extension.as_str(), &names);
        Ok(steps)
    }

    /// Plans the links: episode `i + 1` of the season is linked in `parent`
    /// to `file_names[i]`, under the name that [`episode_name`] gives it.
    pub fn links(
        &self,
        result: &OMDbResult,
        parent: &Path,
        extension: &str,
        file_names: &Vec<Path>,
    ) -> (r: Vec<Step>)
        requires
            file_names@.len() < u32::MAX,
        ensures
            r@.len() == file_names@.len(),
            forall|i: int|
                0 <= i < r@.len() ==> (#[trigger] r@[i])@ == episode_link(
                    parent@,
                    result.title@,
                    self.season as nat,
                    extension@,
                    path_models(file_names@),
                    i,
                ),
    {
        let mut steps: Vec<Step> = Vec::new();
        let mut i: usize = 0;
        while i < file_names.len()
            invariant
                file_names@.len() < u32::MAX,
                i <= file_names@.len(),
                steps@.len() == i,
                forall|t: int|
                    0 <= t < i ==> (#[trigger] steps@[t])@ == episode_link(
                        parent@,
                        result.title@,
                        self.season as nat,
                        extension@,
                        path_models(file_names@),
                        t,
                    ),
            decreases file_names@.len() - i,
        {
            let episode: u32 = (i + 1) as u32;
            let name = result.get_name(self.season, episode, extension);
            steps.push(
                Step::Symlink {
                    link: parent.join_bytes(name.as_str().as_bytes()),
                    target: file_names[i].clone(),
                },
            );
            i += 1;
        }
        steps
    }
}

} // verus!
