//! Moving files to another directory while the client keeps seeding them.

use vstd::prelude::*;
use vstd::utf8::encode_utf8;
use crate::path::{
    Path, PathModel, cur_part, is_rooted, parse_path, part_wf, path_file_name, path_join,
    path_parent, path_strip_prefix, path_wf, root_part, lemma_parse_path_wf,
};
use crate::pathmap::{FileSizes, Mapping};
use crate::plan::{Step, StepModel, plan_model};
use crate::sycli::{
    ClientTorrentModel, FilterFailure, FilterTorrentsError, PROGRESS_COMPLETE, Torrent, filter_torrents,
    filtered, torrents_model,
};

verus! {

/// Why the new base path of a torrent could not be found.
#[derive(Debug, PartialEq, Eq)]
pub enum CalculateNewBasePathError {
    /// The torrent does not lie below the source.
    NotAPrefix,
    /// The path has no parent.
    NoParent(Path),
    /// The source path has no file name.
    NoFileName(Path),
}

pub enum BasePathFailure {
    NotAPrefix,
    NoParent(PathModel),
    NoFileName(PathModel),
}

impl View for CalculateNewBasePathError {
    type V = BasePathFailure;

    open spec fn view(&self) -> BasePathFailure {
        match self {
            CalculateNewBasePathError::NotAPrefix => BasePathFailure::NotAPrefix,
            CalculateNewBasePathError::NoParent(path) => BasePathFailure::NoParent(path@),
            CalculateNewBasePathError::NoFileName(path) => BasePathFailure::NoFileName(path@),
        }
    }
}

/// Whether the torrent holds one file that lies directly in its base path.
pub open spec fn is_single_file(torrent: ClientTorrentModel) -> bool {
    torrent.paths.len() == 1 && torrent.paths[0].len() == 1
}

/// Where a torrent will have its base path once `source` has been moved into
/// the directory `target`.
///
/// - A source that is a file: `target`.
/// - A torrent of one file directly in its base path: what stands below
///   `source` in the base path, read from `target` and the source's name.
/// - Any other torrent: the torrent's name below its base path, taken from
///   below the source's parent and read from `target`; of that, the parent.
pub open spec fn new_base_path(
    source: PathModel,
    source_is_file: bool,
    target: PathModel,
    torrent: ClientTorrentModel,
) -> Result<PathModel, BasePathFailure> {
    if source_is_file {
        Ok(target)
    } else if is_single_file(torrent) {
        match path_strip_prefix(torrent.base_path, source) {
            None => Err(BasePathFailure::NotAPrefix),
            Some(remainder) => match path_file_name(source) {
                None => Err(BasePathFailure::NoFileName(source)),
                Some(name) => Ok(path_join(path_join(target, seq![name]), remainder)),
            },
        }
    } else {
        let named = path_join(torrent.base_path, parse_path(encode_utf8(torrent.name)));
        match path_parent(source) {
            None => Err(BasePathFailure::NoParent(source)),
            Some(source_dir) => match path_strip_prefix(named, source_dir) {
                None => Err(BasePathFailure::NotAPrefix),
                Some(suffix) => {
                    let with_name = path_join(target, suffix);
                    match path_parent(with_name) {
                        None => Err(BasePathFailure::NoParent(with_name)),
                        Some(parent) => Ok(parent),
                    }
                },
            },
        }
    }
}

/// The base path that `torrent` gets when `source` is moved into `target`:
/// see [`new_base_path`].
pub fn calculate_new_base_path(
    source: &Path,
    source_is_file: bool,
    target: &Path,
    torrent: &Torrent,
) -> (r: Result<Path, CalculateNewBasePathError>)
    ensures
        match r {
            Ok(path) => new_base_path(source@, source_is_file, target@, torrent@) == Ok::<
                _,
                BasePathFailure,
            >(path@),
            Err(e) => new_base_path(source@, source_is_file, target@, torrent@) == Err::<
                PathModel,
                _,
            >(e@),
        },
{
    if source_is_file {
        return Ok(target.clone());
    }
    let single = torrent.files.len() == 1 && torrent.files.path(0).len() == 1;
    if single {
        let remainder = match torrent.base_path.strip_prefix(source) {
            Some(remainder) => remainder,
            None => {
                return Err(CalculateNewBasePathError::NotAPrefix);
            },
        };
        let name = match source.file_name_path() {
            Some(name) => name,
            None => {
                return Err(CalculateNewBasePathError::NoFileName(source.clone()));
            },
        };
        Ok(target.join(&name).join(&remainder))
    } else {
        let named = torrent.base_path.join_bytes(torrent.name.as_str().as_bytes());
        let source_dir = match source.parent() {
            Some(dir) => dir,
            None => {
                return Err(CalculateNewBasePathError::NoParent(source.clone()));
            },
        };
        let suffix = match named.strip_prefix(&source_dir) {
            Some(suffix) => suffix,
            None => {
                return Err(CalculateNewBasePathError::NotAPrefix);
            },
        };
        let with_name = target.join(&suffix);
        match with_name.parent() {
            Some(parent) => Ok(parent),
            None => Err(CalculateNewBasePathError::NoParent(with_name)),
        }
    }
}

/// How the files are moved.
#[derive(Clone, Copy, Debug, PartialEq, Eq, Default)]
pub enum Strategy {
    /// Copy, then remove the source: works across devices, and needs the
    /// space twice for a while.
    #[default]
    CopyAndUnlink,
    /// Rename: does not work across devices.
    Rename,
}

/// What to move, where to, and how.
#[derive(Debug)]
pub struct MoveArgs {
    /// The file or directory to move.
    pub source: Path,
    /// The directory to move it into.
    pub target: Path,
    pub strategy: Strategy,
    /// Directories whose symlinks into the source are to follow the move.
    pub symlink_dir: Vec<Path>,
    /// Only say what would be done.
    pub dry_run: bool,
}

/// Why the symlinks could not be made to follow a move.
#[derive(Debug, PartialEq, Eq)]
pub enum UpdateSymlinksError {
    /// A symlink does not point below the source's directory.
    NotAPrefix,
    /// The source has no parent.
    NoParent(Path),
}

pub enum SymlinkFailure {
    NotAPrefix,
    NoParent(PathModel),
}

impl View for UpdateSymlinksError {
    type V = SymlinkFailure;

    open spec fn view(&self) -> SymlinkFailure {
        match self {
            UpdateSymlinksError::NotAPrefix => SymlinkFailure::NotAPrefix,
            UpdateSymlinksError::NoParent(path) => SymlinkFailure::NoParent(path@),
        }
    }
}

/// The new targets of the first `n` symlinks: what stands below `source_dir`
/// in the old target, read from `target`. The first symlink that does not
/// point below `source_dir` fails them all.
pub open spec fn updates_from(
    source_dir: PathModel,
    target: PathModel,
    links: Seq<PathModel>,
    targets: Seq<PathModel>,
    n: int,
) -> Result<Seq<StepModel>, SymlinkFailure>
    decreases n,
{
    if n <= 0 {
        Ok(Seq::empty())
    } else {
        match updates_from(source_dir, target, links, targets, n - 1) {
            Err(e) => Err(e),
            Ok(steps) => match path_strip_prefix(targets[n - 1], source_dir) {
                None => Err(SymlinkFailure::NotAPrefix),
                Some(rest) => Ok(
                    steps.push(
                        StepModel::CreateOrUpdateSymlink {
                            link: links[n - 1],
                            target: path_join(target, rest),
                        },
                    ),
                ),
            },
        }
    }
}

/// The steps that make the symlinks follow a move of `source` into `target`.
pub open spec fn symlink_updates(
    source: PathModel,
    target: PathModel,
    links: Seq<PathModel>,
    targets: Seq<PathModel>,
) -> Result<Seq<StepModel>, SymlinkFailure> {
    match path_parent(source) {
        None => Err(SymlinkFailure::NoParent(source)),
        Some(source_dir) => updates_from(source_dir, target, links, targets, links.len() as int),
    }
}

pub proof fn lemma_updates_failure_stays(
    source_dir: PathModel,
    target: PathModel,
    links: Seq<PathModel>,
    targets: Seq<PathModel>,
    n: int,
    m: int,
)
    requires
        0 <= n <= m,
    ensures
        updates_from(source_dir, target, links, targets, n) is Err ==> updates_from(
            source_dir,
            target,
            links,
            targets,
            m,
        ) == updates_from(source_dir, target, links, targets, n),
    decreases m - n,
{
    if n < m {
        lemma_updates_failure_stays(source_dir, target, links, targets, n, m - 1);
    }
}

/// Plans the update of the symlinks after `source` has been moved into
/// `target`: see [`symlink_updates`].
pub fn update_symlinks(source: &Path, target: &Path, symlinks: &Mapping) -> (r: Result<
    Vec<Step>,
    UpdateSymlinksError,
>)
    ensures
        match r {
            Ok(steps) => symlink_updates(source@, target@, symlinks.keys(), symlinks.targets())
                == Ok::<_, SymlinkFailure>(plan_model(steps@)),
            Err(e) => symlink_updates(source@, target@, symlinks.keys(), symlinks.targets())
                == Err::<Seq<StepModel>, _>(e@),
        },
{
    let source_dir = match source.parent() {
        Some(dir) => dir,
        None => {
            return Err(UpdateSymlinksError::NoParent(source.clone()));
        },
    };
    let n = symlinks.len();
    let mut steps: Vec<Step> = Vec::new();
    let mut i: usize = 0;
    assert(plan_model(steps@) =~= Seq::<StepModel>::empty());
    while i < n
        invariant
            n == symlinks.keys().len(),
            n == symlinks.targets().len(),
            i <= n,
            path_parent(source@) == Some(source_dir@),
            updates_from(source_dir@, target@, symlinks.keys(), symlinks.targets(), i as int)
                == Ok::<_, SymlinkFailure>(plan_model(steps@)),
        decreases n - i,
    {
        proof {
            lemma_updates_failure_stays(
                source_dir@,
                target@,
                symlinks.keys(),
                symlinks.targets(),
                i + 1,
                n as int,
            );
        }
        let rest = match symlinks.target(i).strip_prefix(&source_dir) {
            Some(rest) => rest,
            None => {
                return Err(UpdateSymlinksError::NotAPrefix);
            },
        };
        let ghost before = plan_model(steps@);
        let step = Step::CreateOrUpdateSymlink {
            link: symlinks.path(i).clone(),
            target: target.join(&rest),
        };
        steps.push(step);
        assert(plan_model(steps@) =~= before.push(step@));
        i += 1;
    }
    Ok(steps)
}

/// The client is told of the new base path of each of the first `n`
/// torrents. The first torrent that has none fails them all.
pub open spec fn torrent_moves(
    source: PathModel,
    source_is_file: bool,
    target: PathModel,
    torrents: Seq<ClientTorrentModel>,
    n: int,
) -> Result<Seq<StepModel>, BasePathFailure>
    decreases n,
{
    if n <= 0 {
        Ok(Seq::empty())
    } else {
        match torrent_moves(source, source_is_file, target, torrents, n - 1) {
            Err(e) => Err(e),
            Ok(steps) => match new_base_path(source, source_is_file, target, torrents[n - 1]) {
                Err(e) => Err(e),
                Ok(base_path) => Ok(
                    steps.push(StepModel::MoveTorrent { id: torrents[n - 1].id, base_path }),
                ),
            },
        }
    }
}

pub proof fn lemma_moves_failure_stays(
    source: PathModel,
    source_is_file: bool,
    target: PathModel,
    torrents: Seq<ClientTorrentModel>,
    n: int,
    m: int,
)
    requires
        0 <= n <= m,
    ensures
        torrent_moves(source, source_is_file, target, torrents, n) is Err ==> torrent_moves(
            source,
            source_is_file,
            target,
            torrents,
            m,
        ) == torrent_moves(source, source_is_file, target, torrents, n),
    decreases m - n,
{
    if n < m {
        lemma_moves_failure_stays(source, source_is_file, target, torrents, n, m - 1);
    }
}

/// Plans telling the client where each torrent lies after the move: see
/// [`torrent_moves`].
pub fn move_torrents(source: &Path, source_is_file: bool, target: &Path, torrents: &Vec<Torrent>) -> (r:
    Result<Vec<Step>, CalculateNewBasePathError>)
    ensures
        match r {
            Ok(steps) => torrent_moves(
                source@,
                source_is_file,
                target@,
                torrents_model(torrents@),
                torrents@.len() as int,
            ) == Ok::<_, BasePathFailure>(plan_model(steps@)),
            Err(e) => torrent_moves(
                source@,
                source_is_file,
                target@,
                torrents_model(torrents@),
                torrents@.len() as int,
            ) == Err::<Seq<StepModel>, _>(e@),
        },
{
    let n = torrents.len();
    let ghost models = torrents_model(torrents@);
    let mut steps: Vec<Step> = Vec::new();
    let mut i: usize = 0;
    assert(plan_model(steps@) =~= Seq::<StepModel>::empty());
    while i < n
        invariant
            n == torrents@.len(),
            models == torrents_model(torrents@),
            i <= n,
            torrent_moves(source@, source_is_file, target@, models, i as int) == Ok::<
                _,
                BasePathFailure,
            >(plan_model(steps@)),
        decreases n - i,
    {
        proof {
            lemma_moves_failure_stays(source@, source_is_file, target@, models, i + 1, n as int);
            assert(models[i as int] == torrents@[i as int]@);
        }
        let base_path = match calculate_new_base_path(source, source_is_file, target, &torrents[i]) {
            Ok(base_path) => base_path,
            Err(e) => {
                return Err(e);
            },
        };
        let ghost before = plan_model(steps@);
        let step = Step::MoveTorrent { id: torrents[i].id.clone(), base_path };
        steps.push(step);
        assert(plan_model(steps@) =~= before.push(step@));
        i += 1;
    }
    Ok(steps)
}

/// Pausing each torrent, in order.
pub open spec fn pause_steps(torrents: Seq<ClientTorrentModel>) -> Seq<StepModel> {
    Seq::new(torrents.len(), |i: int| StepModel::PauseTorrent(torrents[i].id))
}

/// Resuming each torrent, in order.
pub open spec fn resume_steps(torrents: Seq<ClientTorrentModel>) -> Seq<StepModel> {
    Seq::new(torrents.len(), |i: int| StepModel::ResumeTorrent(torrents[i].id))
}

/// The id of the first torrent that the client does not have all of.
pub open spec fn first_incomplete(torrents: Seq<ClientTorrentModel>) -> Option<Seq<char>>
    decreases torrents.len(),
{
    if torrents.len() == 0 {
        None
    } else {
        match first_incomplete(torrents.drop_last()) {
            Some(id) => Some(id),
            None => if torrents.last().progress != PROGRESS_COMPLETE {
                Some(torrents.last().id)
            } else {
                None
            },
        }
    }
}

pub proof fn lemma_incomplete_stays(torrents: Seq<ClientTorrentModel>, n: int)
    requires
        0 <= n <= torrents.len(),
    ensures
        first_incomplete(torrents.take(n)) is Some ==> first_incomplete(torrents)
            == first_incomplete(torrents.take(n)),
    decreases torrents.len() - n,
{
    if n < torrents.len() {
        lemma_incomplete_stays(torrents, n + 1);
        assert(torrents.take(n + 1).drop_last() =~= torrents.take(n));
    } else {
        assert(torrents.take(n) =~= torrents);
    }
}

/// The first torrent that the client does not have all of.
pub fn find_incomplete(torrents: &Vec<Torrent>) -> (r: Option<usize>)
    ensures
        match r {
            Some(at) => at < torrents@.len() && first_incomplete(torrents_model(torrents@)) == Some(
                torrents@[at as int].id@,
            ),
            None => first_incomplete(torrents_model(torrents@)) is None,
        },
{
    let ghost models = torrents_model(torrents@);
    let mut i: usize = 0;
    assert(models.take(0) =~= Seq::<ClientTorrentModel>::empty());
    while i < torrents.len()
        invariant
            models == torrents_model(torrents@),
            i <= torrents@.len(),
            first_incomplete(models.take(i as int)) is None,
        decreases torrents@.len() - i,
    {
        proof {
            assert(models.take(i + 1).drop_last() =~= models.take(i as int));
            assert(models.take(i + 1).last() == torrents@[i as int]@);
            lemma_incomplete_stays(models, i + 1);
        }
        if !torrents[i].is_complete() {
            return Some(i);
        }
        i += 1;
    }
    assert(models.take(torrents@.len() as int) =~= models);
    None
}

/// `keys` and `values` with `key` mapped to `value`: in its place where the
/// key is there, at the end where it is new.
pub open spec fn put(
    entries: (Seq<PathModel>, Seq<PathModel>),
    key: PathModel,
    value: PathModel,
) -> (Seq<PathModel>, Seq<PathModel>) {
    if entries.0.contains(key) {
        (entries.0, entries.1.update(entries.0.index_of(key), value))
    } else {
        (entries.0.push(key), entries.1.push(value))
    }
}

/// `entries` with those of the first `n` symlinks that point at a source file.
pub open spec fn with_links_into(
    entries: (Seq<PathModel>, Seq<PathModel>),
    links: Seq<PathModel>,
    targets: Seq<PathModel>,
    source: Seq<PathModel>,
    n: int,
) -> (Seq<PathModel>, Seq<PathModel>)
    decreases n,
{
    if n <= 0 {
        entries
    } else {
        let before = with_links_into(entries, links, targets, source, n - 1);
        if source.contains(targets[n - 1]) {
            put(before, links[n - 1], targets[n - 1])
        } else {
            before
        }
    }
}

/// The symlinks of the first `n` directories that point at a source file. A
/// link that is met again takes its later target.
pub open spec fn links_into(found: Seq<Mapping>, source: Seq<PathModel>, n: int) -> (
    Seq<PathModel>,
    Seq<PathModel>,
)
    decreases n,
{
    if n <= 0 {
        (Seq::empty(), Seq::empty())
    } else {
        with_links_into(
            links_into(found, source, n - 1),
            found[n - 1].keys(),
            found[n - 1].targets(),
            source,
            found[n - 1].keys().len() as int,
        )
    }
}

/// The symlinks that point at a file of the source: see [`links_into`].
pub fn symlinks_to_update(found: &Vec<Mapping>, source_files: &FileSizes) -> (r: Mapping)
    ensures
        (r.keys(), r.targets()) == links_into(found@, source_files.keys(), found@.len() as int),
{
    let mut kept = Mapping::new();
    let mut i: usize = 0;
    while i < found.len()
        invariant
            i <= found@.len(),
            (kept.keys(), kept.targets()) == links_into(found@, source_files.keys(), i as int),
        decreases found@.len() - i,
    {
        let links = &found[i];
        let n = links.len();
        let mut k: usize = 0;
        let ghost start = (kept.keys(), kept.targets());
        while k < n
            invariant
                n == links.keys().len(),
                n == links.targets().len(),
                k <= n,
                (kept.keys(), kept.targets()) == with_links_into(
                    start,
                    links.keys(),
                    links.targets(),
                    source_files.keys(),
                    k as int,
                ),
            decreases n - k,
        {
            if source_files.contains_key(links.target(k)) {
                let _ = kept.insert(links.path(k).clone(), links.target(k).clone());
            }
            k += 1;
        }
        i += 1;
    }
    kept
}

/// The paths as a set of files, each with the size zero.
pub fn as_file_set(links: &Mapping) -> (r: FileSizes)
    ensures
        r.keys() == links.keys(),
{
    let n = links.len();
    let mut files = FileSizes::new();
    let mut i: usize = 0;
    assert(links.keys().take(0) =~= Seq::<PathModel>::empty());
    while i < n
        invariant
            n == links.keys().len(),
            links.keys().no_duplicates(),
            i <= n,
            files.keys() == links.keys().take(i as int),
        decreases n - i,
    {
        proof {
            let key = links.keys()[i as int];
            if links.keys().take(i as int).contains(key) {
                let t = links.keys().take(i as int).index_of(key);
                assert(links.keys()[t] == key);
            }
        }
        let _ = files.insert(links.path(i).clone(), 0);
        assert(files.keys() =~= links.keys().take(i + 1));
        i += 1;
    }
    assert(links.keys().take(n as int) =~= links.keys());
    files
}

/// Why a move could not be planned.
#[derive(Debug, PartialEq, Eq)]
pub enum MoveError {
    /// The torrents that own the source files could not be selected.
    Torrents(FilterTorrentsError),
    /// No torrent owns a source file.
    NoTorrents,
    /// The client does not have all of the torrent of this id.
    Incomplete(String),
    /// The torrents that are seeded through the symlinks could not be selected.
    SymlinkedTorrents(FilterTorrentsError),
    /// The client does not have all of the torrent of this id, which is
    /// seeded through a symlink.
    IncompleteSymlinked(String),
    /// The source has no file name.
    NoFileName(Path),
    /// A torrent has no new base path.
    BasePath(CalculateNewBasePathError),
    /// The symlinks cannot follow.
    Symlinks(UpdateSymlinksError),
}

pub enum MoveFailure {
    Torrents(FilterFailure),
    NoTorrents,
    Incomplete(Seq<char>),
    SymlinkedTorrents(FilterFailure),
    IncompleteSymlinked(Seq<char>),
    NoFileName(PathModel),
    BasePath(BasePathFailure),
    Symlinks(SymlinkFailure),
}

impl View for MoveError {
    type V = MoveFailure;

    open spec fn view(&self) -> MoveFailure {
        match self {
            MoveError::Torrents(e) => MoveFailure::Torrents(e@),
            MoveError::NoTorrents => MoveFailure::NoTorrents,
            MoveError::Incomplete(id) => MoveFailure::Incomplete(id@),
            MoveError::SymlinkedTorrents(e) => MoveFailure::SymlinkedTorrents(e@),
            MoveError::IncompleteSymlinked(id) => MoveFailure::IncompleteSymlinked(id@),
            MoveError::NoFileName(path) => MoveFailure::NoFileName(path@),
            MoveError::BasePath(e) => MoveFailure::BasePath(e@),
            MoveError::Symlinks(e) => MoveFailure::Symlinks(e@),
        }
    }
}

/// Moving the files and telling the client, between pausing and resuming:
/// by renaming, the source is renamed and then the client told; by copying,
/// the source is copied, the client told, and then the source removed.
pub open spec fn file_steps(
    strategy: Strategy,
    source: PathModel,
    source_is_file: bool,
    target: PathModel,
    name: Seq<u8>,
    moves: Seq<StepModel>,
) -> Seq<StepModel> {
    let moved = path_join(target, seq![name]);
    match strategy {
        Strategy::Rename => seq![StepModel::Rename { from: source, to: moved }] + moves,
        Strategy::CopyAndUnlink => if source_is_file {
            seq![StepModel::CopyFile { from: source, to: moved }] + moves + seq![
                StepModel::RemoveFile(source),
            ]
        } else {
            seq![StepModel::CopyTree { from: source, into: target }] + moves + seq![
                StepModel::RemoveTree(source),
            ]
        },
    }
}

/// The plan of a move.
///
/// The torrents that own the source files are selected, and the torrents
/// that own a symlink into the source. All of them must be complete. They
/// are paused, the files are moved and the client is told of the new base
/// paths, the symlinks are made to follow, and the torrents are resumed.
pub open spec fn move_plan(
    strategy: Strategy,
    source: PathModel,
    source_is_file: bool,
    target: PathModel,
    source_files: Seq<PathModel>,
    torrents: Seq<ClientTorrentModel>,
    found: Seq<Mapping>,
) -> Result<Seq<StepModel>, MoveFailure> {
    match filtered(torrents, source_files) {
        Err(e) => Err(MoveFailure::Torrents(e)),
        Ok(owners) => if owners.len() == 0 {
            Err(MoveFailure::NoTorrents)
        } else if first_incomplete(owners) is Some {
            Err(MoveFailure::Incomplete(first_incomplete(owners)->Some_0))
        } else {
            let links = links_into(found, source_files, found.len() as int);
            match filtered(torrents, links.0) {
                Err(e) => Err(MoveFailure::SymlinkedTorrents(e)),
                Ok(linked) => if first_incomplete(linked) is Some {
                    Err(MoveFailure::IncompleteSymlinked(first_incomplete(linked)->Some_0))
                } else {
                    match path_file_name(source) {
                        None => Err(MoveFailure::NoFileName(source)),
                        Some(name) => match torrent_moves(
                            source,
                            source_is_file,
                            target,
                            owners,
                            owners.len() as int,
                        ) {
                            Err(e) => Err(MoveFailure::BasePath(e)),
                            Ok(moves) => match symlink_updates(source, target, links.0, links.1) {
                                Err(e) => Err(MoveFailure::Symlinks(e)),
                                Ok(updates) => Ok(
                                    pause_steps(owners) + pause_steps(linked) + file_steps(
                                        strategy,
                                        source,
                                        source_is_file,
                                        target,
                                        name,
                                        moves,
                                    ) + updates + resume_steps(owners) + resume_steps(linked),
                                ),
                            },
                        },
                    }
                },
            }
        },
    }
}

/// Plans the move by renaming: the source is renamed to its name in the
/// target directory, and then the client is told. A source without a name
/// cannot be moved.
pub fn move_files_with_rename(source: &Path, target: &Path, moves: Vec<Step>) -> (r: Result<
    Vec<Step>,
    MoveError,
>)
    ensures
        match r {
            Ok(steps) => path_file_name(source@) is Some && plan_model(steps@) == file_steps(
                Strategy::Rename,
                source@,
                false,
                target@,
                path_file_name(source@)->Some_0,
                plan_model(moves@),
            ),
            Err(e) => path_file_name(source@) is None && e@ == MoveFailure::NoFileName(source@),
        },
{
    let name = match source.file_name_path() {
        Some(name) => name,
        None => {
            return Err(MoveError::NoFileName(source.clone()));
        },
    };
    let mut steps: Vec<Step> = Vec::new();
    steps.push(Step::Rename { from: source.clone(), to: target.join(&name) });
    assert(plan_model(steps@) =~= seq![
        StepModel::Rename { from: source@, to: path_join(target@, seq![name@[0]]) },
    ]);
    push_steps(&mut steps, moves);
    Ok(steps)
}

/// Plans the move by copying: the source is copied into the target
/// directory, then the client is told, and then the source is removed. A
/// source without a name cannot be moved.
pub fn move_files_with_copy(source: &Path, source_is_file: bool, target: &Path, moves: Vec<Step>) -> (r:
    Result<Vec<Step>, MoveError>)
    ensures
        match r {
            Ok(steps) => path_file_name(source@) is Some && plan_model(steps@) == file_steps(
                Strategy::CopyAndUnlink,
                source@,
                source_is_file,
                target@,
                path_file_name(source@)->Some_0,
                plan_model(moves@),
            ),
            Err(e) => path_file_name(source@) is None && e@ == MoveFailure::NoFileName(source@),
        },
{
    let name = match source.file_name_path() {
        Some(name) => name,
        None => {
            return Err(MoveError::NoFileName(source.clone()));
        },
    };
    let mut steps: Vec<Step> = Vec::new();
    if source_is_file {
        steps.push(Step::CopyFile { from: source.clone(), to: target.join(&name) });
        assert(plan_model(steps@) =~= seq![
            StepModel::CopyFile { from: source@, to: path_join(target@, seq![name@[0]]) },
        ]);
        push_steps(&mut steps, moves);
        let ghost copied = plan_model(steps@);
        steps.push(Step::RemoveFile(source.clone()));
        assert(plan_model(steps@) =~= copied + seq![StepModel::RemoveFile(source@)]);
    } else {
        steps.push(Step::CopyTree { from: source.clone(), into: target.clone() });
        assert(plan_model(steps@) =~= seq![StepModel::CopyTree { from: source@, into: target@ }]);
        push_steps(&mut steps, moves);
        let ghost copied = plan_model(steps@);
        steps.push(Step::RemoveTree(source.clone()));
        assert(plan_model(steps@) =~= copied + seq![StepModel::RemoveTree(source@)]);
    }
    Ok(steps)
}

/// Whether the step pauses a torrent.
pub fn is_pause(step: &Step) -> (r: bool)
    ensures
        r == (step@ is PauseTorrent),
{
    match step {
        Step::PauseTorrent(_) => true,
        _ => false,
    }
}

/// Once a step that is no pause has been met, the count stays.
pub proof fn lemma_leading_pauses_stop(steps: Seq<StepModel>, k: int, n: int)
    requires
        0 <= k <= n <= steps.len(),
        leading_pauses(steps, k) == k,
        k < steps.len() ==> !(steps[k] is PauseTorrent),
    ensures
        leading_pauses(steps, n) == k,
    decreases n - k,
{
    if k < n {
        lemma_leading_pauses_stop(steps, k, n - 1);
    }
}

/// Appends a step for each torrent: to pause it, or to resume it.
fn push_pauses(steps: &mut Vec<Step>, torrents: &Vec<Torrent>, resume: bool)
    ensures
        plan_model(final(steps)@) == plan_model(old(steps)@) + (if resume {
            resume_steps(torrents_model(torrents@))
        } else {
            pause_steps(torrents_model(torrents@))
        }),
{
    let ghost all = if resume {
        resume_steps(torrents_model(torrents@))
    } else {
        pause_steps(torrents_model(torrents@))
    };
    let mut i: usize = 0;
    assert(plan_model(steps@) =~= plan_model(old(steps)@) + all.take(0));
    while i < torrents.len()
        invariant
            i <= torrents@.len(),
            all == (if resume {
                resume_steps(torrents_model(torrents@))
            } else {
                pause_steps(torrents_model(torrents@))
            }),
            plan_model(steps@) == plan_model(old(steps)@) + all.take(i as int),
        decreases torrents@.len() - i,
    {
        let id = torrents[i].id.clone();
        let ghost before = plan_model(steps@);
        assert(torrents_model(torrents@)[i as int].id == id@);
        if resume {
            steps.push(Step::ResumeTorrent(id));
            assert(plan_model(steps@) =~= before.push(StepModel::ResumeTorrent(id@)));
        } else {
            steps.push(Step::PauseTorrent(id));
            assert(plan_model(steps@) =~= before.push(StepModel::PauseTorrent(id@)));
        }
        assert(all.take(i + 1) =~= all.take(i as int).push(all[i as int]));
        assert(plan_model(steps@) =~= plan_model(old(steps)@) + all.take(i + 1));
        i += 1;
    }
    assert(all.take(torrents@.len() as int) =~= all);
}

/// Appends the steps of another plan.
fn push_steps(steps: &mut Vec<Step>, more: Vec<Step>)
    ensures
        plan_model(final(steps)@) == plan_model(old(steps)@) + plan_model(more@),
{
    let mut more = more;
    let ghost added = more@;
    steps.append(&mut more);
    assert(plan_model(steps@) =~= plan_model(old(steps)@) + plan_model(added));
}

/// How many of the first `n` steps pause a torrent.
pub open spec fn leading_pauses(steps: Seq<StepModel>, n: int) -> int
    decreases n,
{
    if n <= 0 {
        0
    } else {
        let before = leading_pauses(steps, n - 1);
        if before == n - 1 && steps[n - 1] is PauseTorrent {
            n
        } else {
            before
        }
    }
}

impl MoveArgs {
    /// Whether the target lies in the source. Such a move cannot be planned:
    /// removing the source would remove what was moved.
    pub fn target_in_source(&self) -> (r: bool)
        ensures
            r == self.source@.is_prefix_of(self.target@),
    {
        self.target.starts_with(&self.source)
    }

    /// The same move by copying.
    pub fn by_copy(&self) -> (r: MoveArgs)
        ensures
            r.source@ == self.source@,
            r.target@ == self.target@,
            r.strategy == Strategy::CopyAndUnlink,
            r.dry_run == self.dry_run,
            crate::pathmap::path_models(r.symlink_dir@) == crate::pathmap::path_models(
                self.symlink_dir@,
            ),
    {
        MoveArgs {
            source: self.source.clone(),
            target: self.target.clone(),
            strategy: Strategy::CopyAndUnlink,
            symlink_dir: crate::pathmap::clone_paths(&self.symlink_dir),
            dry_run: self.dry_run,
        }
    }

    /// What to go on with when the rename of a move by renaming failed
    /// because source and target lie on different devices: the plan of the
    /// same move by copying, without the pauses, which have been done.
    pub fn plan_after_failed_rename(
        &self,
        source_is_file: bool,
        source_files: &FileSizes,
        torrents: &[Torrent],
        found: &Vec<Mapping>,
    ) -> (r: Result<Vec<Step>, MoveError>)
        requires
            !self.source@.is_prefix_of(self.target@),
        ensures
            match r {
                Ok(steps) => {
                    let whole = move_plan(
                        Strategy::CopyAndUnlink,
                        self.source@,
                        source_is_file,
                        self.target@,
                        source_files.keys(),
                        torrents_model(torrents@),
                        found@,
                    );
                    &&& whole is Ok
                    &&& plan_model(steps@) == whole->Ok_0.skip(
                        leading_pauses(whole->Ok_0, whole->Ok_0.len() as int),
                    )
                },
                Err(e) => move_plan(
                    Strategy::CopyAndUnlink,
                    self.source@,
                    source_is_file,
                    self.target@,
                    source_files.keys(),
                    torrents_model(torrents@),
                    found@,
                ) == Err::<Seq<StepModel>, _>(e@),
            },
    {
        let copy = self.by_copy();
        let mut steps = match copy.exec(source_is_file, source_files, torrents, found) {
            Ok(steps) => steps,
            Err(e) => {
                return Err(e);
            },
        };
        let ghost whole = plan_model(steps@);
        let n = steps.len();
        let mut pauses: usize = 0;
        while pauses < n && is_pause(&steps[pauses])
            invariant
                n == steps@.len(),
                whole == plan_model(steps@),
                pauses <= n,
                leading_pauses(whole, pauses as int) == pauses,
            decreases n - pauses,
        {
            assert(whole[pauses as int] == steps@[pauses as int]@);
            pauses += 1;
        }
        proof {
            if pauses < n {
                assert(whole[pauses as int] == steps@[pauses as int]@);
            }
            lemma_leading_pauses_stop(whole, pauses as int, n as int);
        }
        let rest = steps.split_off(pauses);
        assert(plan_model(rest@) =~= whole.skip(pauses as int));
        Ok(rest)
    }

    /// Plans the move of the source into the target directory: see
    /// [`move_plan`].
    ///
    /// `source_files` are the files of the source, `torrents` all torrents of
    /// the client, and `found[i]` the symlinks below `symlink_dir[i]`. The
    /// target must not lie in the source: the source is removed in the end.
    pub fn exec(
        &self,
        source_is_file: bool,
        source_files: &FileSizes,
        torrents: &[Torrent],
        found: &Vec<Mapping>,
    ) -> (r: Result<Vec<Step>, MoveError>)
        requires
            !self.source@.is_prefix_of(self.target@),
        ensures
            match r {
                Ok(steps) => move_plan(
                    self.strategy,
                    self.source@,
                    source_is_file,
                    self.target@,
                    source_files.keys(),
                    torrents_model(torrents@),
                    found@,
                ) == Ok::<_, MoveFailure>(plan_model(steps@)),
                Err(e) => move_plan(
                    self.strategy,
                    self.source@,
                    source_is_file,
                    self.target@,
                    source_files.keys(),
                    torrents_model(torrents@),
                    found@,
                ) == Err::<Seq<StepModel>, _>(e@),
            },
    {
        let owners = match filter_torrents(torrents, source_files) {
            Ok(owners) => owners,
            Err(e) => {
                return Err(MoveError::Torrents(e));
            },
        };
        if owners.len() == 0 {
            return Err(MoveError::NoTorrents);
        }
        if let Some(at) = find_incomplete(&owners) {
            return Err(MoveError::Incomplete(owners[at].id.clone()));
        }
        let links = symlinks_to_update(found, source_files);
        let link_set = as_file_set(&links);
        let linked = match filter_torrents(torrents, &link_set) {
            Ok(linked) => linked,
            Err(e) => {
                return Err(MoveError::SymlinkedTorrents(e));
            },
        };
        if let Some(at) = find_incomplete(&linked) {
            return Err(MoveError::IncompleteSymlinked(linked[at].id.clone()));
        }
        if self.source.file_name().is_none() {
            return Err(MoveError::NoFileName(self.source.clone()));
        }
        let moves = match move_torrents(&self.source, source_is_file, &self.target, &owners) {
            Ok(moves) => moves,
            Err(e) => {
                return Err(MoveError::BasePath(e));
            },
        };
        let updates = match update_symlinks(&self.source, &self.target, &links) {
            Ok(updates) => updates,
            Err(e) => {
                return Err(MoveError::Symlinks(e));
            },
        };
        let moving = match self.strategy {
            Strategy::Rename => move_files_with_rename(&self.source, &self.target, moves),
            Strategy::CopyAndUnlink => move_files_with_copy(
                &self.source,
                source_is_file,
                &self.target,
                moves,
            ),
        };
        let moving = match moving {
            Ok(moving) => moving,
            Err(e) => {
                return Err(e);
            },
        };
        let mut steps: Vec<Step> = Vec::new();
        assert(plan_model(steps@) =~= Seq::<StepModel>::empty());
        push_pauses(&mut steps, &owners, false);
        push_pauses(&mut steps, &linked, false);
        push_steps(&mut steps, moving);
        push_steps(&mut steps, updates);
        push_pauses(&mut steps, &owners, true);
        push_pauses(&mut steps, &linked, true);
        Ok(steps)
    }
}

/// Whether a path is relative and does not start with `.`.
pub open spec fn is_plain(path: PathModel) -> bool {
    !is_rooted(path) && (path.len() > 0 ==> path[0] != cur_part())
}

/// The torrent with its base path read from the directory `dir`.
pub open spec fn torrent_from(dir: PathModel, torrent: ClientTorrentModel) -> ClientTorrentModel {
    ClientTorrentModel { base_path: path_join(dir, torrent.base_path), ..torrent }
}

/// The outcome with every path in it read from the directory `dir`.
pub open spec fn outcome_from(dir: PathModel, outcome: Result<PathModel, BasePathFailure>) -> Result<
    PathModel,
    BasePathFailure,
> {
    match outcome {
        Ok(path) => Ok(path_join(dir, path)),
        Err(BasePathFailure::NotAPrefix) => Err(BasePathFailure::NotAPrefix),
        Err(BasePathFailure::NoParent(path)) => Err(BasePathFailure::NoParent(path_join(dir, path))),
        Err(BasePathFailure::NoFileName(path)) => Err(
            BasePathFailure::NoFileName(path_join(dir, path)),
        ),
    }
}

/// A path that is relative and does not start with `.` is appended as it is.
pub proof fn lemma_join_plain(a: PathModel, b: PathModel)
    requires
        is_plain(b),
    ensures
        path_join(a, b) == a + b,
{
    assert(path_join(a, b) =~= a + b);
}

/// What follows the front of a well-formed path is relative and does not
/// start with `.`.
pub proof fn lemma_tail_plain(path: PathModel, k: int)
    requires
        path_wf(path),
        1 <= k <= path.len(),
    ensures
        is_plain(path.skip(k)),
{
    if path.skip(k).len() > 0 {
        assert(path.skip(k)[0] == path[k]);
        assert(part_wf(path[k], false));
    }
}

/// Reading a path from a directory keeps what is appended to the path.
pub proof fn lemma_from_dir(dir: PathModel, target: PathModel, tail: PathModel)
    requires
        is_rooted(dir),
        is_rooted(target) || (is_plain(target) && target.len() > 0),
    ensures
        path_join(dir, target + tail) == path_join(dir, target) + tail,
{
    let all = target + tail;
    assert(all[0] == target[0]);
    if is_rooted(target) {
        assert(is_rooted(all));
    } else {
        assert(is_plain(all));
        assert(path_join(dir, all) =~= dir + target + tail);
        assert(path_join(dir, target) =~= dir + target);
    }
}

/// What lies below a path does so too once both are read from the same
/// directory, and the same is left of it.
pub proof fn lemma_strip_prefix_from(dir: PathModel, path: PathModel, base: PathModel)
    ensures
        path_strip_prefix(dir + path, dir + base) == path_strip_prefix(path, base),
{
    lemma_prefix_from(dir, base, path);
    if base.is_prefix_of(path) {
        assert((dir + path).skip((dir + base).len() as int) =~= path.skip(base.len() as int));
    }
}

/// A path that is not empty keeps its file name when it is read from a
/// directory.
pub proof fn lemma_file_name_from(dir: PathModel, path: PathModel)
    requires
        path.len() > 0,
    ensures
        path_file_name(dir + path) == path_file_name(path),
        (dir + path).last() == path.last(),
        (dir + path).drop_last() == dir + path.drop_last(),
{
    assert((dir + path).last() == path.last());
    assert((dir + path).drop_last() =~= dir + path.drop_last());
}

/// The new base path of a torrent of one file, where there is one.
pub proof fn lemma_single_new_base_path(
    source: PathModel,
    target: PathModel,
    torrent: ClientTorrentModel,
)
    requires
        is_single_file(torrent),
    ensures
        new_base_path(source, false, target, torrent) == (match path_strip_prefix(
            torrent.base_path,
            source,
        ) {
            None => Err::<PathModel, _>(BasePathFailure::NotAPrefix),
            Some(remainder) => match path_file_name(source) {
                None => Err(BasePathFailure::NoFileName(source)),
                Some(name) => Ok(path_join(path_join(target, seq![name]), remainder)),
            },
        }),
{
}

/// A name and what follows it are appended as they are, whether before or
/// after the path is read from a directory.
pub proof fn lemma_moved_from(
    dir: PathModel,
    target: PathModel,
    name: Seq<u8>,
    remainder: PathModel,
)
    requires
        is_rooted(dir),
        is_rooted(target) || (is_plain(target) && target.len() > 0),
        name != root_part(),
        name != cur_part(),
        is_plain(remainder),
    ensures
        path_join(path_join(path_join(dir, target), seq![name]), remainder) == path_join(
            dir,
            path_join(path_join(target, seq![name]), remainder),
        ),
{
    let one = seq![name];
    assert(one[0] == name);
    assert(is_plain(one));
    let tail = one + remainder;
    assert(tail[0] == name);
    assert(is_plain(tail));
    let abs_target = path_join(dir, target);
    lemma_join_plain(target, one);
    lemma_join_plain(target + one, remainder);
    lemma_join_plain(abs_target, one);
    lemma_join_plain(abs_target + one, remainder);
    assert(target + one + remainder =~= target + tail);
    assert(abs_target + one + remainder =~= abs_target + tail);
    lemma_from_dir(dir, target, tail);
}

proof fn lemma_single_commutes(
    dir: PathModel,
    source: PathModel,
    target: PathModel,
    torrent: ClientTorrentModel,
)
    requires
        is_rooted(dir),
        path_wf(source),
        path_wf(torrent.base_path),
        is_plain(source),
        source.len() > 0,
        is_plain(torrent.base_path),
        is_rooted(target) || (is_plain(target) && target.len() > 0),
        is_single_file(torrent),
    ensures
        new_base_path(
            path_join(dir, source),
            false,
            path_join(dir, target),
            torrent_from(dir, torrent),
        ) == outcome_from(dir, new_base_path(source, false, target, torrent)),
{
    let base = torrent.base_path;
    let moved = torrent_from(dir, torrent);
    lemma_join_plain(dir, source);
    lemma_join_plain(dir, base);
    lemma_strip_prefix_from(dir, base, source);
    lemma_file_name_from(dir, source);
    lemma_single_new_base_path(source, target, torrent);
    lemma_single_new_base_path(path_join(dir, source), path_join(dir, target), moved);
    match path_strip_prefix(base, source) {
        None => {},
        Some(remainder) => {
            lemma_tail_plain(base, source.len() as int);
            match path_file_name(source) {
                None => {},
                Some(name) => {
                    lemma_moved_from(dir, target, name, remainder);
                },
            }
        },
    }
}

/// The new base path of a torrent of several files, where there is one.
pub proof fn lemma_multi_new_base_path(
    source: PathModel,
    target: PathModel,
    torrent: ClientTorrentModel,
)
    requires
        !is_single_file(torrent),
    ensures
        new_base_path(source, false, target, torrent) == (match path_parent(source) {
            None => Err::<PathModel, _>(BasePathFailure::NoParent(source)),
            Some(source_dir) => match path_strip_prefix(
                path_join(torrent.base_path, parse_path(encode_utf8(torrent.name))),
                source_dir,
            ) {
                None => Err(BasePathFailure::NotAPrefix),
                Some(suffix) => match path_parent(path_join(target, suffix)) {
                    None => Err(BasePathFailure::NoParent(path_join(target, suffix))),
                    Some(parent) => Ok(parent),
                },
            },
        }),
{
}

/// Two well-formed paths of which the second is relative and does not start
/// with `.` make a well-formed path together.
pub proof fn lemma_append_wf(a: PathModel, b: PathModel)
    requires
        path_wf(a),
        path_wf(b),
        is_plain(b),
    ensures
        path_wf(a + b),
        is_plain(a) ==> is_plain(a + b),
{
    let all = a + b;
    assert forall|i: int| 0 <= i < all.len() implies part_wf(#[trigger] all[i], i == 0) by {
        if i < a.len() {
            assert(all[i] == a[i]);
        } else {
            assert(all[i] == b[i - a.len()]);
            assert(part_wf(b[i - a.len()], i - a.len() == 0));
        }
    }
    if all.len() > 0 {
        if a.len() > 0 {
            assert(all[0] == a[0]);
        } else {
            assert(all[0] == b[0]);
        }
    }
}

/// The parent of a path that a directory is read before.
pub proof fn lemma_parent_from(dir: PathModel, target: PathModel, suffix: PathModel)
    requires
        is_rooted(dir),
        path_wf(target),
        path_wf(suffix),
        is_plain(suffix),
        is_rooted(target) || (is_plain(target) && target.len() > 0),
    ensures
        path_parent(path_join(path_join(dir, target), suffix)) == (match path_parent(
            path_join(target, suffix),
        ) {
            Some(parent) => Some(path_join(dir, parent)),
            None => None,
        }),
        path_join(path_join(dir, target), suffix) == path_join(dir, path_join(target, suffix)),
{
    let abs_target = path_join(dir, target);
    lemma_join_plain(target, suffix);
    lemma_join_plain(abs_target, suffix);
    lemma_from_dir(dir, target, suffix);
    let with_name = target + suffix;
    lemma_append_wf(target, suffix);
    assert(with_name[0] == target[0]);
    let last = with_name.len() - 1;
    assert(part_wf(with_name[last], last == 0));
    if is_rooted(target) {
        if with_name.last() != root_part() {
            let parent = with_name.drop_last();
            assert(parent.len() > 0);
            assert(parent[0] == target[0]);
        }
    } else {
        lemma_join_plain(dir, target);
        lemma_file_name_from(dir, with_name);
        assert(with_name.last() != root_part());
        let parent = with_name.drop_last();
        assert(is_plain(parent)) by {
            if parent.len() > 0 {
                assert(parent[0] == target[0]);
            }
        }
        lemma_join_plain(dir, parent);
        lemma_join_plain(dir, with_name);
        assert(dir + target + suffix =~= dir + with_name);
    }
}

proof fn lemma_multi_commutes(
    dir: PathModel,
    source: PathModel,
    target: PathModel,
    torrent: ClientTorrentModel,
)
    requires
        is_rooted(dir),
        path_wf(source),
        path_wf(target),
        path_wf(torrent.base_path),
        path_wf(parse_path(encode_utf8(torrent.name))),
        is_plain(source),
        source.len() > 0,
        is_plain(torrent.base_path),
        is_plain(parse_path(encode_utf8(torrent.name))),
        is_rooted(target) || (is_plain(target) && target.len() > 0),
        !is_single_file(torrent),
    ensures
        new_base_path(
            path_join(dir, source),
            false,
            path_join(dir, target),
            torrent_from(dir, torrent),
        ) == outcome_from(dir, new_base_path(source, false, target, torrent)),
{
    let base = torrent.base_path;
    let name = parse_path(encode_utf8(torrent.name));
    let moved = torrent_from(dir, torrent);
    lemma_multi_new_base_path(source, target, torrent);
    lemma_multi_new_base_path(path_join(dir, source), path_join(dir, target), moved);
    lemma_join_plain(dir, source);
    lemma_join_plain(dir, base);
    lemma_join_plain(base, name);
    lemma_join_plain(dir + base, name);
    let named = base + name;
    assert(dir + base + name =~= dir + named);
    lemma_append_wf(base, name);
    lemma_file_name_from(dir, source);
    let source_dir = source.drop_last();
    assert(part_wf(source.last(), source.len() == 1));
    assert(source.last() != root_part()) by {
        if source.len() == 1 {
            assert(source[0] != root_part());
        }
    }
    lemma_strip_prefix_from(dir, named, source_dir);
    match path_strip_prefix(named, source_dir) {
        None => {},
        Some(suffix) => {
            assert(is_plain(suffix) && path_wf(suffix)) by {
                if source_dir.len() > 0 {
                    lemma_tail_plain(named, source_dir.len() as int);
                } else {
                    assert(suffix =~= named);
                }
                assert forall|i: int| 0 <= i < suffix.len() implies part_wf(
                    #[trigger] suffix[i],
                    i == 0,
                ) by {
                    assert(suffix[i] == named[i + source_dir.len()]);
                    assert(part_wf(
                        named[i + source_dir.len()],
                        i + source_dir.len() == 0,
                    ));
                }
            }
            lemma_parent_from(dir, target, suffix);
        },
    }
}

/// Making the paths absolute commutes with finding the new base path.
///
/// The source, the torrent's base path and the torrent's name are relative
/// paths that do not start with `.`, and the source is not empty; the target
/// is absolute, or relative in the same way and not empty. Then reading
/// source, target and base path from the absolute directory `dir` before the
/// new base path is found gives what reading the outcome from `dir` gives.
pub proof fn lemma_new_base_path_commutes(
    dir: PathModel,
    source: PathModel,
    source_is_file: bool,
    target: PathModel,
    torrent: ClientTorrentModel,
)
    requires
        path_wf(dir),
        path_wf(source),
        path_wf(target),
        path_wf(torrent.base_path),
        is_rooted(dir),
        is_plain(source),
        source.len() > 0,
        is_plain(torrent.base_path),
        is_plain(parse_path(encode_utf8(torrent.name))),
        is_rooted(target) || (is_plain(target) && target.len() > 0),
    ensures
        new_base_path(
            path_join(dir, source),
            source_is_file,
            path_join(dir, target),
            torrent_from(dir, torrent),
        ) == outcome_from(dir, new_base_path(source, source_is_file, target, torrent)),
{
    if source_is_file {
    } else if is_single_file(torrent) {
        lemma_single_commutes(dir, source, target, torrent);
    } else {
        lemma_parse_path_wf(encode_utf8(torrent.name));
        lemma_multi_commutes(dir, source, target, torrent);
    }
}

/// One path lies below another exactly when it does so once both are read
/// from the same directory.
pub proof fn lemma_prefix_from(dir: PathModel, a: PathModel, b: PathModel)
    ensures
        (dir + a).is_prefix_of(dir + b) == a.is_prefix_of(b),
{
    let x = dir + a;
    let y = dir + b;
    if a.is_prefix_of(b) {
        assert(y.subrange(0, x.len() as int) =~= x) by {
            assert(b.subrange(0, a.len() as int) == a);
            assert forall|i: int| 0 <= i < x.len() implies y.subrange(0, x.len() as int)[i]
                == x[i] by {
                if i >= dir.len() {
                    assert(b.subrange(0, a.len() as int)[i - dir.len()] == a[i - dir.len()]);
                }
            }
        }
    }
    if x.is_prefix_of(y) {
        assert(b.subrange(0, a.len() as int) =~= a) by {
            assert(y.subrange(0, x.len() as int) == x);
            assert forall|i: int| 0 <= i < a.len() implies b.subrange(0, a.len() as int)[i]
                == a[i] by {
                assert(y.subrange(0, x.len() as int)[i + dir.len()] == x[i + dir.len()]);
            }
        }
    }
}

/// Whether every step pauses a torrent.
pub open spec fn only_pauses(steps: Seq<StepModel>) -> bool {
    forall|i: int| 0 <= i < steps.len() ==> #[trigger] steps[i] is PauseTorrent
}

/// Whether every step resumes a torrent.
pub open spec fn only_resumes(steps: Seq<StepModel>) -> bool {
    forall|i: int| 0 <= i < steps.len() ==> #[trigger] steps[i] is ResumeTorrent
}

/// Whether no step pauses or resumes a torrent.
pub open spec fn only_effects(steps: Seq<StepModel>) -> bool {
    forall|i: int|
        0 <= i < steps.len() ==> !(#[trigger] steps[i] is PauseTorrent) && !(steps[i] is ResumeTorrent)
}

/// Whether the pauses come first and the resumes last.
pub open spec fn is_bracketed(steps: Seq<StepModel>) -> bool {
    forall|i: int, j: int|
        0 <= i < steps.len() && 0 <= j < steps.len() ==> {
            &&& (#[trigger] steps[i] is PauseTorrent) && !(#[trigger] steps[j] is PauseTorrent) ==> i
                < j
            &&& (steps[i] is ResumeTorrent) && !(steps[j] is ResumeTorrent) ==> j < i
        }
}

pub proof fn lemma_moves_are_effects(
    source: PathModel,
    source_is_file: bool,
    target: PathModel,
    torrents: Seq<ClientTorrentModel>,
    n: int,
)
    ensures
        torrent_moves(source, source_is_file, target, torrents, n) matches Ok(steps)
            ==> only_effects(steps),
    decreases n,
{
    if n > 0 {
        lemma_moves_are_effects(source, source_is_file, target, torrents, n - 1);
    }
}

pub proof fn lemma_updates_are_effects(
    source_dir: PathModel,
    target: PathModel,
    links: Seq<PathModel>,
    targets: Seq<PathModel>,
    n: int,
)
    ensures
        updates_from(source_dir, target, links, targets, n) matches Ok(steps) ==> only_effects(
            steps,
        ),
    decreases n,
{
    if n > 0 {
        lemma_updates_are_effects(source_dir, target, links, targets, n - 1);
    }
}

/// Pauses, then effects, then resumes make a bracketed plan.
pub proof fn lemma_bracketed(
    pauses: Seq<StepModel>,
    effects: Seq<StepModel>,
    resumes: Seq<StepModel>,
)
    requires
        only_pauses(pauses),
        only_effects(effects),
        only_resumes(resumes),
    ensures
        is_bracketed(pauses + effects + resumes),
{
    let all = pauses + effects + resumes;
    assert forall|i: int, j: int| 0 <= i < all.len() && 0 <= j < all.len() implies {
        &&& (#[trigger] all[i] is PauseTorrent) && !(#[trigger] all[j] is PauseTorrent) ==> i < j
        &&& (all[i] is ResumeTorrent) && !(all[j] is ResumeTorrent) ==> j < i
    } by {
        let a = pauses.len();
        let b = a + effects.len();
        if i < a {
            assert(all[i] == pauses[i]);
        } else if i < b {
            assert(all[i] == effects[i - a]);
        } else {
            assert(all[i] == resumes[i - b]);
        }
        if j < a {
            assert(all[j] == pauses[j]);
        } else if j < b {
            assert(all[j] == effects[j - a]);
        } else {
            assert(all[j] == resumes[j - b]);
        }
    }
}

/// In the plan of a move, every torrent is paused before anything is
/// changed, and none is resumed before everything has been: the pauses come
/// before all other steps and the resumes after.
pub proof fn lemma_move_plan_bracketed(
    strategy: Strategy,
    source: PathModel,
    source_is_file: bool,
    target: PathModel,
    source_files: Seq<PathModel>,
    torrents: Seq<ClientTorrentModel>,
    found: Seq<Mapping>,
)
    ensures
        move_plan(strategy, source, source_is_file, target, source_files, torrents, found) matches Ok(
            steps,
        ) ==> is_bracketed(steps),
{
    if let Ok(steps) = move_plan(
        strategy,
        source,
        source_is_file,
        target,
        source_files,
        torrents,
        found,
    ) {
        let owners = filtered(torrents, source_files)->Ok_0;
        let links = links_into(found, source_files, found.len() as int);
        let linked = filtered(torrents, links.0)->Ok_0;
        let name = path_file_name(source)->Some_0;
        let moves = torrent_moves(source, source_is_file, target, owners, owners.len() as int)->Ok_0;
        let updates = symlink_updates(source, target, links.0, links.1)->Ok_0;
        lemma_moves_are_effects(source, source_is_file, target, owners, owners.len() as int);
        lemma_updates_are_effects(
            path_parent(source)->Some_0,
            target,
            links.0,
            links.1,
            links.0.len() as int,
        );
        let pauses = pause_steps(owners) + pause_steps(linked);
        let files = file_steps(strategy, source, source_is_file, target, name, moves);
        let effects = files + updates;
        let resumes = resume_steps(owners) + resume_steps(linked);
        assert(only_pauses(pauses));
        assert(only_resumes(resumes));
        assert(only_effects(files)) by {
            assert forall|i: int| 0 <= i < files.len() implies !(#[trigger] files[i] is PauseTorrent)
                && !(files[i] is ResumeTorrent) by {
                if 1 <= i <= moves.len() {
                    assert(files[i] == moves[i - 1]);
                }
            }
        }
        assert(only_effects(effects)) by {
            assert forall|i: int| 0 <= i < effects.len() implies !(
            #[trigger] effects[i] is PauseTorrent) && !(effects[i] is ResumeTorrent) by {
                if i < files.len() {
                    assert(effects[i] == files[i]);
                } else {
                    assert(effects[i] == updates[i - files.len()]);
                }
            }
        }
        lemma_bracketed(pauses, effects, resumes);
        assert(steps =~= pauses + effects + resumes);
    }
}

} // verus!
