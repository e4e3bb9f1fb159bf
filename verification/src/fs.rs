//! What a walk of a directory tree found, and what is made of it.
//!
//! The walk itself is the caller's: the library is handed the entries in the
//! order in which they were met.

use vstd::prelude::*;
use crate::path::{Path, PathModel};
use crate::pathmap::{FileSizes, Mapping};

verus! {

/// One step of a walk.
#[derive(Debug, PartialEq, Eq)]
pub enum Walked {
    /// The walk could not read an entry.
    Failed(String),
    /// A directory.
    Dir(Path),
    /// A plain file, with its size or the reason why it has none.
    File(Path, Result<u64, String>),
    /// A symlink, with its target or the reason why it has none.
    Symlink(Path, Result<Path, String>),
    /// Anything else: a socket, a device, a pipe.
    Other(Path),
}

/// Why the files below a path could not be collected.
#[derive(Debug, PartialEq, Eq)]
pub enum CollectFilesError {
    /// The walk failed; the message is the walk's own.
    WalkDir(String),
    /// Below the first path, the second is neither a file nor a directory.
    NonFilePath(Path, Path),
    /// The walk met this file twice.
    DuplicateEntry(Path),
    /// The walk met no file.
    NoFiles,
}

pub enum CollectFilesFailure {
    WalkDir(Seq<char>),
    NonFilePath(PathModel, PathModel),
    DuplicateEntry(PathModel),
    NoFiles,
}

impl View for CollectFilesError {
    type V = CollectFilesFailure;

    open spec fn view(&self) -> CollectFilesFailure {
        match self {
            CollectFilesError::WalkDir(message) => CollectFilesFailure::WalkDir(message@),
            CollectFilesError::NonFilePath(root, path) => CollectFilesFailure::NonFilePath(
                root@,
                path@,
            ),
            CollectFilesError::DuplicateEntry(path) => CollectFilesFailure::DuplicateEntry(path@),
            CollectFilesError::NoFiles => CollectFilesFailure::NoFiles,
        }
    }
}

/// The files and sizes that the entries give when taken one by one, or the
/// first failure among them: an entry that could not be read, one that is
/// neither file nor directory, a file without a size, a file met twice.
pub open spec fn gathered(root: PathModel, entries: Seq<Walked>) -> Result<
    (Seq<PathModel>, Seq<u64>),
    CollectFilesFailure,
>
    decreases entries.len(),
{
    if entries.len() == 0 {
        Ok((Seq::empty(), Seq::empty()))
    } else {
        match gathered(root, entries.drop_last()) {
            Err(e) => Err(e),
            Ok((paths, sizes)) => match entries.last() {
                Walked::Failed(message) => Err(CollectFilesFailure::WalkDir(message@)),
                Walked::Dir(_) => Ok((paths, sizes)),
                Walked::File(_, Err(message)) => Err(CollectFilesFailure::WalkDir(message@)),
                Walked::File(path, Ok(size)) => if paths.contains(path@) {
                    Err(CollectFilesFailure::DuplicateEntry(path@))
                } else {
                    Ok((paths.push(path@), sizes.push(size)))
                },
                Walked::Symlink(path, _) => Err(CollectFilesFailure::NonFilePath(root, path@)),
                Walked::Other(path) => Err(CollectFilesFailure::NonFilePath(root, path@)),
            },
        }
    }
}

/// What a walk below `root` collects: see [`gathered`]. A walk that met no
/// file collects nothing.
pub open spec fn collected(root: PathModel, entries: Seq<Walked>) -> Result<
    (Seq<PathModel>, Seq<u64>),
    CollectFilesFailure,
> {
    match gathered(root, entries) {
        Err(e) => Err(e),
        Ok((paths, sizes)) => if paths.len() == 0 {
            Err(CollectFilesFailure::NoFiles)
        } else {
            Ok((paths, sizes))
        },
    }
}

/// A copy of the text.
pub fn clone_text(text: &String) -> (r: String)
    ensures
        r@ == text@,
{
    text.clone()
}

/// The sizes of the files that a walk below `path` met, by path. Directories
/// are passed over; anything but a file or a directory stops the collection.
pub fn collect_files(path: &Path, entries: &Vec<Walked>) -> (r: Result<FileSizes, CollectFilesError>)
    ensures
        match r {
            Ok(files) => collected(path@, entries@) == Ok::<_, CollectFilesFailure>(
                (files.keys(), files.sizes()),
            ),
            Err(e) => collected(path@, entries@) == Err::<(Seq<PathModel>, Seq<u64>), _>(e@),
        },
{
    let mut files = FileSizes::new();
    let mut i: usize = 0;
    assert(entries@.take(0) =~= Seq::<Walked>::empty());
    while i < entries.len()
        invariant
            i <= entries@.len(),
            gathered(path@, entries@.take(i as int)) == Ok::<_, CollectFilesFailure>(
                (files.keys(), files.sizes()),
            ),
        decreases entries@.len() - i,
    {
        proof {
            assert(entries@.take(i + 1).drop_last() =~= entries@.take(i as int));
            assert(entries@.take(i + 1).last() == entries@[i as int]);
            lemma_gathered_failure_stays(path@, entries@, i + 1);
        }
        match &entries[i] {
            Walked::Failed(message) => {
                return Err(CollectFilesError::WalkDir(clone_text(message)));
            },
            Walked::Dir(_) => {},
            Walked::File(_, Err(message)) => {
                return Err(CollectFilesError::WalkDir(clone_text(message)));
            },
            Walked::File(found, Ok(size)) => {
                if files.insert(found.clone(), *size).is_some() {
                    return Err(CollectFilesError::DuplicateEntry(found.clone()));
                }
            },
            Walked::Symlink(found, _) => {
                return Err(CollectFilesError::NonFilePath(path.clone(), found.clone()));
            },
            Walked::Other(found) => {
                return Err(CollectFilesError::NonFilePath(path.clone(), found.clone()));
            },
        }
        i += 1;
    }
    assert(entries@.take(entries@.len() as int) =~= entries@);
    if files.len() == 0 {
        Err(CollectFilesError::NoFiles)
    } else {
        Ok(files)
    }
}

/// Once the first `n` entries have failed, the whole walk has, in the same way.
pub proof fn lemma_gathered_failure_stays(root: PathModel, entries: Seq<Walked>, n: int)
    requires
        0 <= n <= entries.len(),
    ensures
        gathered(root, entries.take(n)) is Err ==> gathered(root, entries) == gathered(
            root,
            entries.take(n),
        ),
    decreases entries.len() - n,
{
    if n < entries.len() {
        lemma_gathered_failure_stays(root, entries, n + 1);
        assert(entries.take(n + 1).drop_last() =~= entries.take(n));
    } else {
        assert(entries.take(n) =~= entries);
    }
}

/// The symlinks among the entries, each with its target, in the order in
/// which they were met; or the first failure of the walk or of reading a
/// link, whichever comes first.
pub open spec fn symlinks_of(entries: Seq<Walked>) -> Result<
    (Seq<PathModel>, Seq<PathModel>),
    Seq<char>,
>
    decreases entries.len(),
{
    if entries.len() == 0 {
        Ok((Seq::empty(), Seq::empty()))
    } else {
        match symlinks_of(entries.drop_last()) {
            Err(e) => Err(e),
            Ok((links, targets)) => match entries.last() {
                Walked::Failed(message) => Err(message@),
                Walked::Symlink(_, Err(message)) => Err(message@),
                Walked::Symlink(link, Ok(target)) => if links.contains(link@) {
                    Ok((links, targets.update(links.index_of(link@), target@)))
                } else {
                    Ok((links.push(link@), targets.push(target@)))
                },
                _ => Ok((links, targets)),
            },
        }
    }
}

pub proof fn lemma_symlinks_failure_stays(entries: Seq<Walked>, n: int)
    requires
        0 <= n <= entries.len(),
    ensures
        symlinks_of(entries.take(n)) is Err ==> symlinks_of(entries) == symlinks_of(
            entries.take(n),
        ),
    decreases entries.len() - n,
{
    if n < entries.len() {
        lemma_symlinks_failure_stays(entries, n + 1);
        assert(entries.take(n + 1).drop_last() =~= entries.take(n));
    } else {
        assert(entries.take(n) =~= entries);
    }
}

/// Why the symlinks below a path could not be collected: the message of the
/// walk, or of the link that could not be read.
#[derive(Debug, PartialEq, Eq)]
pub enum CollectSymlinksError {
    WalkDir(String),
    Io(String),
}

impl CollectSymlinksError {
    pub open spec fn message(&self) -> Seq<char> {
        match self {
            CollectSymlinksError::WalkDir(message) => message@,
            CollectSymlinksError::Io(message) => message@,
        }
    }
}

/// The symlinks that a walk met, each with where it points: see
/// [`symlinks_of`]. A failure of the walk is reported as `WalkDir`, a link
/// that could not be read as `Io`.
pub fn collect_symlinks(entries: &Vec<Walked>) -> (r: Result<Mapping, CollectSymlinksError>)
    ensures
        match r {
            Ok(links) => symlinks_of(entries@) == Ok::<_, Seq<char>>(
                (links.keys(), links.targets()),
            ),
            Err(e) => symlinks_of(entries@) == Err::<(Seq<PathModel>, Seq<PathModel>), _>(
                e.message(),
            ),
        },
        r matches Err(CollectSymlinksError::WalkDir(_)) ==> exists|i: int|
            0 <= i < entries@.len() && #[trigger] entries@[i] is Failed,
        r matches Err(CollectSymlinksError::Io(_)) ==> exists|i: int|
            0 <= i < entries@.len() && #[trigger] entries@[i] is Symlink,
{
    let mut links = Mapping::new();
    let mut i: usize = 0;
    assert(entries@.take(0) =~= Seq::<Walked>::empty());
    while i < entries.len()
        invariant
            i <= entries@.len(),
            symlinks_of(entries@.take(i as int)) == Ok::<_, Seq<char>>(
                (links.keys(), links.targets()),
            ),
        decreases entries@.len() - i,
    {
        proof {
            assert(entries@.take(i + 1).drop_last() =~= entries@.take(i as int));
            assert(entries@.take(i + 1).last() == entries@[i as int]);
            lemma_symlinks_failure_stays(entries@, i + 1);
        }
        match &entries[i] {
            Walked::Failed(message) => {
                return Err(CollectSymlinksError::WalkDir(clone_text(message)));
            },
            Walked::Symlink(_, Err(message)) => {
                return Err(CollectSymlinksError::Io(clone_text(message)));
            },
            Walked::Symlink(link, Ok(target)) => {
                let _ = links.insert(link.clone(), target.clone());
            },
            _ => {},
        }
        i += 1;
    }
    assert(entries@.take(entries@.len() as int) =~= entries@);
    Ok(links)
}

/// Who carries out the steps of a plan.
#[derive(Clone, Copy, Debug, PartialEq, Eq)]
pub enum Effector {
    /// The steps are carried out.
    Live,
    /// The steps are printed, and nothing is changed.
    DryRun,
}

/// The effector for a run: the one that only prints, for a dry run.
pub fn new_instance(dry_run: bool) -> (r: Effector)
    ensures
        r == (if dry_run {
            Effector::DryRun
        } else {
            Effector::Live
        }),
{
    if dry_run {
        Effector::DryRun
    } else {
        Effector::Live
    }
}

/// What came of trying to create a symlink.
#[derive(Debug, PartialEq, Eq)]
pub enum SymlinkAttempt {
    Created,
    /// Something lies at the link's path already.
    AlreadyExists,
    /// Any other failure, with its message.
    Failed(String),
}

/// What to do about a symlink after trying to create it.
#[derive(Debug, PartialEq, Eq)]
pub enum SymlinkNext {
    /// The symlink is there.
    Done,
    /// Remove what lies at the link's path and create the symlink again. The
    /// old link is lost even if that fails.
    RemoveAndRetry,
    /// Give up, with this message.
    Fail(String),
}

/// Decides what follows the first attempt to create a symlink that is to
/// replace whatever is there: an attempt that found something there is
/// followed by removing it and trying again.
pub fn create_or_update_symlink(attempt: SymlinkAttempt) -> (r: SymlinkNext)
    ensures
        r == (match attempt {
            SymlinkAttempt::Created => SymlinkNext::Done,
            SymlinkAttempt::AlreadyExists => SymlinkNext::RemoveAndRetry,
            SymlinkAttempt::Failed(message) => SymlinkNext::Fail(message),
        }),
{
    match attempt {
        SymlinkAttempt::Created => SymlinkNext::Done,
        SymlinkAttempt::AlreadyExists => SymlinkNext::RemoveAndRetry,
        SymlinkAttempt::Failed(message) => SymlinkNext::Fail(message),
    }
}

} // verus!
