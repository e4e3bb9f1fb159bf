//! Putting the episodes of a release into a directory of their own.

use vstd::prelude::*;
use vstd::utf8::encode_utf8;
use crate::path::{Path, PathModel, parse_path, path_file_name, path_join};
use crate::pathmap::{find_path, path_models};
use crate::plan::{Step, StepModel, plan_model};
use crate::sycli::{ClientTorrentModel, Torrent, torrents_model};
use crate::text::{as_text, push_text, read_text};

verus! {

/// Which files to organize, and where.
#[derive(Debug)]
pub struct OrganizeEpisodesArgs {
    /// The directory in which the directories of the releases are made.
    pub base_dir: Path,
    /// Only say what would be done.
    pub dry_run: bool,
    /// The files to process.
    pub files: Vec<Path>,
}

/// The names that an episode of a release bears: what stands before the
/// number of the episode is the header, and quality, source and group after
/// the title are the trailer.
pub const EPISODE_PATTERN: &'static str =
    "^(?<header>.+?\\.S[0-9][0-9])E[0-9][0-9]\\..+?\\.(?<trailer>(?:720|1080|2160)p\\..+?\\.WEB-DL.+)\\.mkv";

/// What the groups named `first` and `second` hold in the first match of
/// `pattern` in `text`, as the `regex` crate finds it. There is nothing where
/// the pattern is refused, where it does not match, and where one of the
/// groups took no part in the match.
pub uninterp spec fn regex_groups(
    pattern: Seq<char>,
    text: Seq<char>,
    first: Seq<char>,
    second: Seq<char>,
) -> Option<(Seq<char>, Seq<char>)>;

/// Compiles `pattern` with `regex::Regex::new`, searches `text` with
/// `Regex::captures` and asks the match for the two groups with
/// `Captures::name`.
///
/// Nothing is proved of the matcher. The contract gives its answer the name
/// [`regex_groups`]: the same pattern, text and groups always give the same.
#[verifier::external_body]
pub(crate) fn capture_groups(pattern: &str, text: &str, first: &str, second: &str) -> (r: Option<
    (String, String),
>)
    ensures
        match r {
            Some((a, b)) => regex_groups(pattern@, text@, first@, second@) == Some((a@, b@)),
            None => regex_groups(pattern@, text@, first@, second@) is None,
        },
{
    let captures = regex::Regex::new(pattern).ok()?.captures(text)?;
    let a = captures.name(first)?.as_str().to_owned();
    let b = captures.name(second)?.as_str().to_owned();
    Some((a, b))
}

/// The name of the directory for a release, given what the pattern finds in
/// the name of one of its episodes: header and trailer with a dot between.
pub open spec fn release_name(groups: Option<(Seq<char>, Seq<char>)>) -> Option<Seq<char>> {
    match groups {
        Some((header, trailer)) => Some(header + seq!['.'] + trailer),
        None => None,
    }
}

/// The name of the directory for the file of this name. There is none where
/// the name is no text or does not bear the names of an episode.
pub open spec fn release_of(file_name: Seq<u8>) -> Option<Seq<char>> {
    match as_text(file_name) {
        Some(text) => release_name(regex_groups(EPISODE_PATTERN@, text, "header"@, "trailer"@)),
        None => None,
    }
}

/// The name of the directory for a release: see [`release_name`].
pub fn name_release(groups: Option<(String, String)>) -> (r: Option<String>)
    ensures
        match r {
            Some(name) => match groups {
                Some((header, trailer)) => release_name(Some((header@, trailer@))) == Some(name@),
                None => false,
            },
            None => groups is None,
        },
{
    match groups {
        Some((header, trailer)) => {
            let mut name = header;
            name.push('.');
            push_text(&mut name, trailer.as_str());
            Some(name)
        },
        None => None,
    }
}

/// What is done for one torrent: nothing, unless it holds a single file that
/// is among `files` and bears the names of an episode. Then the directory of
/// the release is made in `base_dir`, the file is linked into it, the client
/// is told that the torrent lies there, and the file is removed from where
/// it was.
pub open spec fn organize_one(
    base_dir: PathModel,
    files: Seq<PathModel>,
    torrent: ClientTorrentModel,
) -> Seq<StepModel> {
    let path = path_join(torrent.base_path, torrent.paths[0]);
    if torrent.paths.len() != 1 || !files.contains(path) {
        Seq::empty()
    } else {
        match path_file_name(path) {
            None => Seq::empty(),
            Some(file_name) => match release_of(file_name) {
                None => Seq::empty(),
                Some(release) => {
                    let dir = path_join(base_dir, parse_path(encode_utf8(release)));
                    seq![
                        StepModel::CreateDir(dir),
                        StepModel::HardLink { existing: path, link: path_join(dir, seq![file_name]) },
                        StepModel::MoveTorrent { id: torrent.id, base_path: dir },
                        StepModel::RemoveFile(path),
                    ]
                },
            },
        }
    }
}

/// What is done for the first `n` torrents, one after another.
pub open spec fn organized(
    base_dir: PathModel,
    files: Seq<PathModel>,
    torrents: Seq<ClientTorrentModel>,
    n: int,
) -> Seq<StepModel>
    decreases n,
{
    if n <= 0 {
        Seq::empty()
    } else {
        organized(base_dir, files, torrents, n - 1) + organize_one(base_dir, files, torrents[n - 1])
    }
}

impl OrganizeEpisodesArgs {
    /// Plans the organizing of the files among the torrents of the client:
    /// see [`organize_one`].
    pub fn exec(&self, torrents: &[Torrent]) -> (r: Vec<Step>)
        ensures
            plan_model(r@) == organized(
                self.base_dir@,
                path_models(self.files@),
                torrents_model(torrents@),
                torrents@.len() as int,
            ),
    {
        let ghost models = torrents_model(torrents@);
        let ghost files = path_models(self.files@);
        let mut steps: Vec<Step> = Vec::new();
        let mut i: usize = 0;
        assert(plan_model(steps@) =~= Seq::<StepModel>::empty());
        while i < torrents.len()
            invariant
                models == torrents_model(torrents@),
                files == path_models(self.files@),
                i <= torrents@.len(),
                plan_model(steps@) == organized(self.base_dir@, files, models, i as int),
            decreases torrents@.len() - i,
        {
            let torrent = &torrents[i];
            assert(models[i as int] == torrent@);
            let ghost before = plan_model(steps@);
            let one = self.organize(torrent);
            let ghost added = plan_model(one@);
            let mut one = one;
            steps.append(&mut one);
            assert(plan_model(steps@) =~= before + added);
            i += 1;
        }
        steps
    }

    /// Plans the organizing of one torrent: see [`organize_one`].
    pub fn organize(&self, torrent: &Torrent) -> (r: Vec<Step>)
        ensures
            plan_model(r@) == organize_one(self.base_dir@, path_models(self.files@), torrent@),
    {
        let mut steps: Vec<Step> = Vec::new();
        assert(plan_model(steps@) =~= Seq::<StepModel>::empty());
        if torrent.files.len() != 1 {
            return steps;
        }
        let path = torrent.base_path.join(torrent.files.path(0));
        match find_path(&self.files, &path) {
            Some(at) => {
                assert(path_models(self.files@)[at as int] == path@);
            },
            None => {
                return steps;
            },
        }
        let name = match path.file_name_path() {
            Some(name) => name,
            None => {
                return steps;
            },
        };
        let groups = match read_text(name.part(0)) {
            Some(text) => capture_groups(EPISODE_PATTERN, text, "header", "trailer"),
            None => None,
        };
        let release = match name_release(groups) {
            Some(release) => release,
            None => {
                return steps;
            },
        };
        let dir = self.base_dir.join_bytes(release.as_str().as_bytes());
        steps.push(Step::CreateDir(dir.clone()));
        steps.push(Step::HardLink { existing: path.clone(), link: dir.join(&name) });
        steps.push(Step::MoveTorrent { id: torrent.id.clone(), base_path: dir });
        steps.push(Step::RemoveFile(path));
        assert(plan_model(steps@) =~= organize_one(
            self.base_dir@,
            path_models(self.files@),
            torrent@,
        ));
        steps
    }
}

} // verus!
