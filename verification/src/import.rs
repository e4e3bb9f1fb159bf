//! Importing torrents for cross-seeding: from a checked mapping to a plan.

use vstd::prelude::*;
use vstd::utf8::encode_utf8;
use crate::announce::{parse_host, url_host};
use crate::path::{
    Path, PathModel, option_model, parse_path, path_file_name, path_join, path_parent,
    remove_common_suffix,
};
use crate::candidates::{
    CandidateError, CandidateIndex, FileCandidates, entry_paths, find_candidates, first_occurrences,
    pick_candidates, picked,
};
use crate::pathmap::{Mapping, find_path, path_models};
use crate::plan::{Step, StepModel, plan_model};
use crate::sampling::{failed_paths, failed_paths_of, orders_cover, sample_pieces, sampled};
use crate::torrent::{File, Piece, Torrent, pieces_model, text_model};

verus! {

/// What to import, from where, and how.
#[derive(Debug)]
pub struct ImportArgs {
    /// Where a mirror of symlinks is made for a torrent whose files are found
    /// under other names than its own.
    pub symlink_dir: Path,
    /// The directories to search for the torrents' files.
    pub source: Vec<Path>,
    /// The torrent files to import.
    pub torrents: Vec<Path>,
    /// Find the files and make the symlinks, but do not hand the torrent to
    /// the client.
    pub skip_add: bool,
    /// Only say what would be done.
    pub dry_run: bool,
    /// How many pieces to hash for each file where only a sample is hashed.
    pub pieces_to_test: usize,
}

impl ImportArgs {
    /// Whether only a sample of the pieces is checked: where nothing is
    /// handed to the client.
    pub fn samples(&self) -> (r: bool)
        ensures
            r == (self.dry_run || self.skip_add),
    {
        self.dry_run || self.skip_add
    }
}

/// Why no plan could be made for a torrent.
#[derive(Clone, Copy, Debug, PartialEq, Eq)]
pub enum CrossSeedError {
    /// A mirror is needed, and the announce URL names no host to call it by.
    NoAnnounceHost,
}

/// The directory in which a torrent is mirrored: the tracker's host below the
/// target directory.
pub open spec fn mirror_root(target_dir: PathModel, host: Seq<char>) -> PathModel {
    path_join(target_dir, parse_path(encode_utf8(host)))
}

/// Handing the torrent to the client, unless that is to be skipped.
pub open spec fn add_steps(skip_add: bool, metainfo: PathModel, seed_root: PathModel) -> Seq<
    StepModel,
> {
    if skip_add {
        Seq::empty()
    } else {
        seq![StepModel::AddTorrent { metainfo, seed_root }]
    }
}

/// Whether the source file has the very name that the torrent gives its file.
pub open spec fn has_own_name(rel: PathModel, src: PathModel) -> bool {
    path_file_name(src) matches Some(name) && rel == seq![name]
}

/// The directory from which all files can be seeded as they lie: every source
/// path ends in its torrent path, and the same directory stands before it in
/// each. There is none for an empty mapping.
pub open spec fn common_seed_root(keys: Seq<PathModel>, targets: Seq<PathModel>) -> Option<
    PathModel,
> {
    if keys.len() == 0 {
        None
    } else {
        let first = remove_common_suffix(targets[0], keys[0]);
        if first is Some && forall|i: int|
            0 <= i < keys.len() ==> remove_common_suffix(targets[i], #[trigger] keys[i]) == first {
            first
        } else {
            None
        }
    }
}

/// The mirror of the first `n` files below `root`: for each file its
/// directory, unless an earlier step makes it, and then its symlink.
pub open spec fn mirror_steps(
    root: PathModel,
    keys: Seq<PathModel>,
    targets: Seq<PathModel>,
    n: int,
) -> Seq<StepModel>
    decreases n,
{
    if n <= 0 {
        Seq::empty()
    } else {
        let before = mirror_steps(root, keys, targets, n - 1);
        let rel = keys[n - 1];
        let with_dir = match path_parent(rel) {
            Some(parent) => {
                let dir = StepModel::Mkdirp(path_join(root, parent));
                if before.contains(dir) {
                    before
                } else {
                    before.push(dir)
                }
            },
            None => before,
        };
        with_dir.push(StepModel::Symlink { link: path_join(root, rel), target: targets[n - 1] })
    }
}

/// The plan for a torrent whose files have been found and checked.
///
/// A torrent of a single file is seeded from the directory of its source
/// file where that file has the torrent's own name for it; a torrent of
/// several files from the directory that stands before each of its files,
/// where there is one such directory. Otherwise the files are mirrored below
/// the tracker's host in the target directory.
pub open spec fn cross_seed_plan(
    is_single_file: bool,
    host: Option<Seq<char>>,
    skip_add: bool,
    metainfo: PathModel,
    target_dir: PathModel,
    keys: Seq<PathModel>,
    targets: Seq<PathModel>,
) -> Result<Seq<StepModel>, CrossSeedError> {
    if is_single_file {
        let rel = keys[0];
        let src = targets[0];
        if has_own_name(rel, src) {
            Ok(add_steps(skip_add, metainfo, src.drop_last()))
        } else {
            match host {
                None => Err(CrossSeedError::NoAnnounceHost),
                Some(h) => {
                    let root = mirror_root(target_dir, h);
                    Ok(
                        seq![
                            StepModel::Mkdirp(root),
                            StepModel::Symlink { link: path_join(root, rel), target: src },
                        ] + add_steps(skip_add, metainfo, root),
                    )
                },
            }
        }
    } else {
        match common_seed_root(keys, targets) {
            Some(seed_root) => Ok(add_steps(skip_add, metainfo, seed_root)),
            None => match host {
                None => Err(CrossSeedError::NoAnnounceHost),
                Some(h) => {
                    let root = mirror_root(target_dir, h);
                    Ok(
                        mirror_steps(root, keys, targets, keys.len() as int) + add_steps(
                            skip_add,
                            metainfo,
                            root,
                        ),
                    )
                },
            },
        }
    }
}

/// The directory from which all files of the mapping can be seeded as they
/// lie: see [`common_seed_root`].
pub fn find_common_seed_root(mapping: &Mapping) -> (r: Option<Path>)
    ensures
        option_model(r) == common_seed_root(mapping.keys(), mapping.targets()),
{
    let n = mapping.len();
    if n == 0 {
        return None;
    }
    let first = match mapping.target(0).remove_common_suffix(mapping.path(0)) {
        Some(first) => first,
        None => {
            return None;
        },
    };
    let mut i: usize = 1;
    while i < n
        invariant
            n == mapping.keys().len(),
            n == mapping.targets().len(),
            1 <= i <= n,
            remove_common_suffix(mapping.targets()[0], mapping.keys()[0]) == Some(first@),
            forall|t: int|
                0 <= t < i ==> remove_common_suffix(mapping.targets()[t], #[trigger] mapping.keys()[t])
                    == Some(first@),
        decreases n - i,
    {
        match mapping.target(i).remove_common_suffix(mapping.path(i)) {
            Some(other) => {
                if !other.same(&first) {
                    return None;
                }
            },
            None => {
                return None;
            },
        }
        i += 1;
    }
    Some(first)
}

/// Appends the step that hands the torrent to the client, unless that is to
/// be skipped.
fn push_add(steps: &mut Vec<Step>, skip_add: bool, metainfo: &Path, seed_root: &Path)
    ensures
        plan_model(final(steps)@) == plan_model(old(steps)@) + add_steps(
            skip_add,
            metainfo@,
            seed_root@,
        ),
{
    if !skip_add {
        steps.push(Step::AddTorrent { metainfo: metainfo.clone(), seed_root: seed_root.clone() });
        assert(plan_model(steps@) =~= plan_model(old(steps)@) + add_steps(
            skip_add,
            metainfo@,
            seed_root@,
        ));
    } else {
        assert(plan_model(steps@) =~= plan_model(old(steps)@) + add_steps(
            skip_add,
            metainfo@,
            seed_root@,
        ));
    }
}

/// The mirror of the mapped files below `root`: see [`mirror_steps`].
pub fn mirror(root: &Path, mapping: &Mapping) -> (r: Vec<Step>)
    ensures
        plan_model(r@) == mirror_steps(
            root@,
            mapping.keys(),
            mapping.targets(),
            mapping.keys().len() as int,
        ),
{
    let n = mapping.len();
    let mut steps: Vec<Step> = Vec::new();
    let mut made: Vec<Path> = Vec::new();
    let mut i: usize = 0;
    assert(plan_model(steps@) =~= Seq::<StepModel>::empty());
    while i < n
        invariant
            n == mapping.keys().len(),
            n == mapping.targets().len(),
            i <= n,
            plan_model(steps@) == mirror_steps(root@, mapping.keys(), mapping.targets(), i as int),
            forall|dir: PathModel|
                path_models(made@).contains(dir) <==> #[trigger] plan_model(steps@).contains(
                    StepModel::Mkdirp(dir),
                ),
        decreases n - i,
    {
        let rel = mapping.path(i);
        let ghost before = plan_model(steps@);
        let ghost made_before = path_models(made@);
        match rel.parent() {
            Some(parent) => {
                let dir = root.join(&parent);
                let found = find_path(&made, &dir);
                proof {
                    if let Some(at) = found {
                        assert(made_before[at as int] == dir@);
                    }
                }
                if found.is_none() {
                    steps.push(Step::Mkdirp(dir.clone()));
                    made.push(dir);
                    proof {
                        let now = plan_model(steps@);
                        let made_now = path_models(made@);
                        assert(now =~= before.push(StepModel::Mkdirp(dir@)));
                        assert(made_now =~= made_before.push(dir@));
                        assert forall|d: PathModel| made_now.contains(d) <==> #[trigger] now.contains(
                            StepModel::Mkdirp(d),
                        ) by {
                            if made_now.contains(d) {
                                let k = made_now.index_of(d);
                                if k < made_before.len() {
                                    assert(made_before[k] == d);
                                    assert(made_before.contains(d));
                                    assert(before.contains(StepModel::Mkdirp(d)));
                                    let t = before.index_of(StepModel::Mkdirp(d));
                                    assert(now[t] == StepModel::Mkdirp(d));
                                } else {
                                    assert(now[before.len() as int] == StepModel::Mkdirp(d));
                                }
                            }
                            if now.contains(StepModel::Mkdirp(d)) {
                                let t = now.index_of(StepModel::Mkdirp(d));
                                if t < before.len() {
                                    assert(before[t] == StepModel::Mkdirp(d));
                                    assert(before.contains(StepModel::Mkdirp(d)));
                                    assert(made_before.contains(d));
                                    let k = made_before.index_of(d);
                                    assert(made_now[k] == d);
                                } else {
                                    assert(made_now[made_before.len() as int] == d);
                                }
                            }
                        }
                    }
                } else {
                    assert(made_before.contains(dir@));
                }
            },
            None => {},
        }
        let ghost with_dir = plan_model(steps@);
        steps.push(Step::Symlink { link: root.join(rel), target: mapping.target(i).clone() });
        proof {
            let link = StepModel::Symlink {
                link: path_join(root@, mapping.keys()[i as int]),
                target: mapping.targets()[i as int],
            };
            let now = plan_model(steps@);
            assert(now =~= with_dir.push(link));
            assert forall|d: PathModel| path_models(made@).contains(d) <==> #[trigger] now.contains(
                StepModel::Mkdirp(d),
            ) by {
                if with_dir.contains(StepModel::Mkdirp(d)) {
                    let t = with_dir.index_of(StepModel::Mkdirp(d));
                    assert(now[t] == StepModel::Mkdirp(d));
                }
                if now.contains(StepModel::Mkdirp(d)) {
                    let t = now.index_of(StepModel::Mkdirp(d));
                    assert(t < with_dir.len());
                    assert(with_dir[t] == StepModel::Mkdirp(d));
                    assert(with_dir.contains(StepModel::Mkdirp(d)));
                }
            }
        }
        i += 1;
    }
    steps
}

impl Torrent {
    /// The directory in which this torrent is mirrored below `target_dir`:
    /// the one named by the host of the announce URL.
    pub fn base_dir(&self, target_dir: &Path) -> (r: Result<Path, CrossSeedError>)
        ensures
            match r {
                Ok(root) => url_host(self.announce@) matches Some(h) && root@ == mirror_root(
                    target_dir@,
                    h,
                ),
                Err(e) => url_host(self.announce@) is None,
            },
    {
        let host = parse_host(self.announce.as_str());
        Torrent::base_dir_for(&host, target_dir)
    }

    /// The directory in which a torrent is mirrored below `target_dir`, given
    /// what its announce URL names as its host.
    pub fn base_dir_for(host: &Option<String>, target_dir: &Path) -> (r: Result<
        Path,
        CrossSeedError,
    >)
        ensures
            match r {
                Ok(root) => host matches Some(h) && root@ == mirror_root(target_dir@, h@),
                Err(e) => host is None,
            },
    {
        match host {
            Some(h) => Ok(target_dir.join_bytes(h.as_str().as_bytes())),
            None => Err(CrossSeedError::NoAnnounceHost),
        }
    }

    /// Plans the seeding of this torrent from the files of `candidates`: see
    /// [`cross_seed_plan`]. The metainfo file lies at `path`; a mirror, where
    /// one is needed, is made below `target_dir`.
    pub fn cross_seed(
        &self,
        skip_add: bool,
        path: &Path,
        target_dir: &Path,
        candidates: &Mapping,
    ) -> (r: Result<Vec<Step>, CrossSeedError>)
        requires
            self.info.is_single_file ==> candidates.keys().len() == 1,
        ensures
            match r {
                Ok(steps) => cross_seed_plan(
                    self.info.is_single_file,
                    url_host(self.announce@),
                    skip_add,
                    path@,
                    target_dir@,
                    candidates.keys(),
                    candidates.targets(),
                ) == Ok::<_, CrossSeedError>(plan_model(steps@)),
                Err(e) => cross_seed_plan(
                    self.info.is_single_file,
                    url_host(self.announce@),
                    skip_add,
                    path@,
                    target_dir@,
                    candidates.keys(),
                    candidates.targets(),
                ) == Err::<Seq<StepModel>, _>(e),
            },
    {
        let host = parse_host(self.announce.as_str());
        Torrent::cross_seed_with_host(
            self.info.is_single_file,
            &host,
            skip_add,
            path,
            target_dir,
            candidates,
        )
    }

    /// Plans the seeding of a torrent, given what its announce URL names as
    /// its host: see [`cross_seed_plan`].
    pub fn cross_seed_with_host(
        is_single_file: bool,
        host: &Option<String>,
        skip_add: bool,
        path: &Path,
        target_dir: &Path,
        candidates: &Mapping,
    ) -> (r: Result<Vec<Step>, CrossSeedError>)
        requires
            is_single_file ==> candidates.keys().len() == 1,
        ensures
            match r {
                Ok(steps) => cross_seed_plan(
                    is_single_file,
                    text_model(*host),
                    skip_add,
                    path@,
                    target_dir@,
                    candidates.keys(),
                    candidates.targets(),
                ) == Ok::<_, CrossSeedError>(plan_model(steps@)),
                Err(e) => cross_seed_plan(
                    is_single_file,
                    text_model(*host),
                    skip_add,
                    path@,
                    target_dir@,
                    candidates.keys(),
                    candidates.targets(),
                ) == Err::<Seq<StepModel>, _>(e),
            },
    {
        let n = candidates.len();
        if is_single_file {
            let rel = candidates.path(0);
            let src = candidates.target(0);
            let own_name = match src.file_name_path() {
                Some(name) => rel.same(&name),
                None => false,
            };
            if own_name {
                let mut steps: Vec<Step> = Vec::new();
                assert(plan_model(steps@) =~= Seq::<StepModel>::empty());
                match src.parent() {
                    Some(seed_root) => {
                        push_add(&mut steps, skip_add, path, &seed_root);
                        assert(plan_model(steps@) =~= add_steps(skip_add, path@, seed_root@));
                    },
                    None => {
                        assert(false);
                    },
                }
                return Ok(steps);
            }
            let root = match Torrent::base_dir_for(host, target_dir) {
                Ok(root) => root,
                Err(e) => {
                    return Err(e);
                },
            };
            let mut steps: Vec<Step> = Vec::new();
            steps.push(Step::Mkdirp(root.clone()));
            steps.push(Step::Symlink { link: root.join(rel), target: src.clone() });
            assert(plan_model(steps@) =~= seq![
                StepModel::Mkdirp(root@),
                StepModel::Symlink { link: path_join(root@, rel@), target: src@ },
            ]);
            push_add(&mut steps, skip_add, path, &root);
            return Ok(steps);
        }
        match find_common_seed_root(candidates) {
            Some(seed_root) => {
                let mut steps: Vec<Step> = Vec::new();
                assert(plan_model(steps@) =~= Seq::<StepModel>::empty());
                push_add(&mut steps, skip_add, path, &seed_root);
                assert(plan_model(steps@) =~= add_steps(skip_add, path@, seed_root@));
                Ok(steps)
            },
            None => {
                let root = match Torrent::base_dir_for(host, target_dir) {
                    Ok(root) => root,
                    Err(e) => {
                        return Err(e);
                    },
                };
                let mut steps = mirror(&root, candidates);
                push_add(&mut steps, skip_add, path, &root);
                Ok(steps)
            },
        }
    }
}

/// Why a torrent could not be imported.
#[derive(Debug, PartialEq, Eq)]
pub enum ImportError {
    /// No local file has the size of the torrent's file at this path.
    NoCandidates(Path),
    /// The chosen files do not hold the bytes of the torrent: pieces of these
    /// files of the torrent have another digest.
    HashMismatch(Vec<Path>),
    /// A mirror is needed, and the announce URL names no host to call it by.
    NoAnnounceHost,
}

/// Whether `found` holds, for each file, the local files of its size.
pub open spec fn candidates_of(
    files: Seq<File>,
    index: CandidateIndex,
    found: Seq<FileCandidates>,
) -> bool {
    &&& found.len() == files.len()
    &&& forall|i: int|
        0 <= i < files.len() ==> {
            &&& (#[trigger] found[i]).path@ == files[i].path@
            &&& found[i].length == files[i].length
            &&& found[i].candidates@.len() > 0
            &&& path_models(found[i].candidates@) == index.paths_of(files[i].length)
        }
}

/// Whether the mapping gives each file the best local file of its size.
pub open spec fn is_mapping_for(files: Seq<File>, index: CandidateIndex, mapping: Mapping) -> bool {
    exists|found: Seq<FileCandidates>|
        {
            &&& #[trigger] candidates_of(files, index, found)
            &&& mapping.keys() == first_occurrences(entry_paths(found))
            &&& mapping.targets().len() == mapping.keys().len()
            &&& forall|k: int|
                0 <= k < mapping.keys().len() ==> picked(
                    found,
                    #[trigger] mapping.keys()[k],
                    mapping.targets()[k],
                )
        }
}

/// Maps each file of the torrent to a local file of its size.
///
/// The mapping fails at the first file for which the index holds no file of
/// its size. Otherwise every file gets the best of the files of its size.
pub fn map_torrent(torrent: &Torrent, index: &CandidateIndex) -> (r: Result<Mapping, ImportError>)
    ensures
        match r {
            Ok(mapping) => is_mapping_for(torrent.info.files@, *index, mapping),
            Err(ImportError::NoCandidates(path)) => exists|i: int|
                {
                    &&& 0 <= i < torrent.info.files@.len()
                    &&& path@ == torrent.info.files@[i].path@
                    &&& #[trigger] index.paths_of(torrent.info.files@[i].length).len() == 0
                    &&& forall|j: int|
                        0 <= j < i ==> (#[trigger] index.paths_of(
                            torrent.info.files@[j].length,
                        )).len() > 0
                },
            Err(_) => false,
        },
{
    let found = match find_candidates(&torrent.info.files, index) {
        Ok(found) => found,
        Err(CandidateError::NoCandidates(path)) => {
            return Err(ImportError::NoCandidates(path));
        },
    };
    let mapping = pick_candidates(&found);
    assert(candidates_of(torrent.info.files@, *index, found@));
    Ok(mapping)
}

impl ImportArgs {
    /// The pieces to check: all of them where the torrent is to be handed to
    /// the client, a sample where it is not.
    pub fn pieces_to_check(&self, pieces: &Vec<Piece>) -> (r: Vec<usize>)
        ensures
            r@.no_duplicates(),
            forall|j: int| 0 <= j < r@.len() ==> (#[trigger] r@[j]) < pieces@.len(),
            !(self.dry_run || self.skip_add) ==> r@ == Seq::new(
                pieces@.len(),
                |i: int| i as usize,
            ),
            (self.dry_run || self.skip_add) ==> exists|orders: Seq<Seq<usize>>|
                orders_cover(orders, pieces_model(pieces@)) && r@ == #[trigger] sampled(
                    orders,
                    self.pieces_to_test as int,
                    orders.len() as int,
                ),
    {
        if self.samples() {
            sample_pieces(pieces, self.pieces_to_test)
        } else {
            let mut all: Vec<usize> = Vec::new();
            let mut i: usize = 0;
            while i < pieces.len()
                invariant
                    i <= pieces@.len(),
                    all@ == Seq::new(i as nat, |t: int| t as usize),
                decreases pieces@.len() - i,
            {
                all.push(i);
                assert(all@ =~= Seq::new((i + 1) as nat, |t: int| t as usize));
                i += 1;
            }
            all
        }
    }
}

/// The plan for a torrent whose chosen files have been checked.
///
/// Where pieces did not hash as they should, there is no plan: the files of
/// which they hold bytes are named. Otherwise the plan is that of
/// [`cross_seed_plan`].
pub open spec fn import_plan(
    is_single_file: bool,
    host: Option<Seq<char>>,
    skip_add: bool,
    metainfo: PathModel,
    target_dir: PathModel,
    keys: Seq<PathModel>,
    targets: Seq<PathModel>,
    failed: Seq<PathModel>,
) -> Result<Seq<StepModel>, ImportFailure> {
    if failed.len() > 0 {
        Err(ImportFailure::HashMismatch(failed))
    } else {
        match cross_seed_plan(is_single_file, host, skip_add, metainfo, target_dir, keys, targets) {
            Ok(steps) => Ok(steps),
            Err(_) => Err(ImportFailure::NoAnnounceHost),
        }
    }
}

pub enum ImportFailure {
    NoCandidates(PathModel),
    HashMismatch(Seq<PathModel>),
    NoAnnounceHost,
}

impl View for ImportError {
    type V = ImportFailure;

    open spec fn view(&self) -> ImportFailure {
        match self {
            ImportError::NoCandidates(path) => ImportFailure::NoCandidates(path@),
            ImportError::HashMismatch(paths) => ImportFailure::HashMismatch(path_models(paths@)),
            ImportError::NoAnnounceHost => ImportFailure::NoAnnounceHost,
        }
    }
}

impl ImportArgs {
    /// Plans the import of the torrent whose metainfo lies at `path`, once
    /// its files have been chosen and checked: see [`import_plan`]. A mirror
    /// goes below the directory for symlinks, and the torrent is handed to
    /// the client unless that is to be skipped.
    pub fn exec(&self, path: &Path, torrent: &Torrent, candidates: &Mapping, failed: &Vec<usize>) -> (r:
        Result<Vec<Step>, ImportError>)
        requires
            torrent.info.is_single_file ==> candidates.keys().len() == 1,
            forall|f: int|
                0 <= f < failed@.len() ==> (#[trigger] failed@[f]) < torrent.info.pieces@.len(),
        ensures
            match r {
                Ok(steps) => import_plan(
                    torrent.info.is_single_file,
                    url_host(torrent.announce@),
                    self.skip_add,
                    path@,
                    self.symlink_dir@,
                    candidates.keys(),
                    candidates.targets(),
                    failed_paths_of(
                        pieces_model(torrent.info.pieces@),
                        failed@,
                        failed@.len() as int,
                    ),
                ) == Ok::<_, ImportFailure>(plan_model(steps@)),
                Err(e) => import_plan(
                    torrent.info.is_single_file,
                    url_host(torrent.announce@),
                    self.skip_add,
                    path@,
                    self.symlink_dir@,
                    candidates.keys(),
                    candidates.targets(),
                    failed_paths_of(
                        pieces_model(torrent.info.pieces@),
                        failed@,
                        failed@.len() as int,
                    ),
                ) == Err::<Seq<StepModel>, _>(e@),
            },
    {
        process_torrent(path, &self.symlink_dir, torrent, candidates, failed, self.skip_add)
    }
}

/// Plans the import of the torrent whose metainfo lies at `path`, once its
/// files have been chosen and checked: see [`import_plan`]. `failed` names
/// the pieces that did not pass.
pub fn process_torrent(
    path: &Path,
    target_dir: &Path,
    torrent: &Torrent,
    candidates: &Mapping,
    failed: &Vec<usize>,
    skip_add: bool,
) -> (r: Result<Vec<Step>, ImportError>)
    requires
        torrent.info.is_single_file ==> candidates.keys().len() == 1,
        forall|f: int| 0 <= f < failed@.len() ==> (#[trigger] failed@[f]) < torrent.info.pieces@.len(),
    ensures
        match r {
            Ok(steps) => import_plan(
                torrent.info.is_single_file,
                url_host(torrent.announce@),
                skip_add,
                path@,
                target_dir@,
                candidates.keys(),
                candidates.targets(),
                failed_paths_of(
                    pieces_model(torrent.info.pieces@),
                    failed@,
                    failed@.len() as int,
                ),
            ) == Ok::<_, ImportFailure>(plan_model(steps@)),
            Err(e) => import_plan(
                torrent.info.is_single_file,
                url_host(torrent.announce@),
                skip_add,
                path@,
                target_dir@,
                candidates.keys(),
                candidates.targets(),
                failed_paths_of(
                    pieces_model(torrent.info.pieces@),
                    failed@,
                    failed@.len() as int,
                ),
            ) == Err::<Seq<StepModel>, _>(e@),
        },
{
    let paths = failed_paths(&torrent.info.pieces, failed);
    if paths.len() > 0 {
        assert(path_models(paths@).len() == paths@.len());
        return Err(ImportError::HashMismatch(paths));
    }
    assert(path_models(paths@).len() == paths@.len());
    match torrent.cross_seed(skip_add, path, target_dir, candidates) {
        Ok(steps) => Ok(steps),
        Err(_) => Err(ImportError::NoAnnounceHost),
    }
}

} // verus!
