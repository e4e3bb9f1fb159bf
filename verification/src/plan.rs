//! Plans: the effects that the caller is to carry out, in order.

use vstd::prelude::*;
use crate::path::{Path, PathModel};

verus! {

/// One effect on the file system or on the torrent client.
#[derive(Debug, PartialEq, Eq)]
pub enum Step {
    /// Create the directory and every directory above it that is missing.
    Mkdirp(Path),
    /// Create the directory, unless it is there already.
    CreateDir(Path),
    /// Create the symlink `link`, which points to `target`.
    Symlink { link: Path, target: Path },
    /// Create `link` as another name of the file `existing`.
    HardLink { existing: Path, link: Path },
    /// Make the symlink `link` point to `target`, whether or not it exists.
    CreateOrUpdateSymlink { link: Path, target: Path },
    /// Rename `from` to `to`.
    Rename { from: Path, to: Path },
    /// Copy the directory `from` with all below it into the directory `into`.
    CopyTree { from: Path, into: Path },
    /// Copy the file `from` to `to`.
    CopyFile { from: Path, to: Path },
    /// Remove the file.
    RemoveFile(Path),
    /// Remove the directory with all below it.
    RemoveTree(Path),
    /// Hand the metainfo file to the client, which is to seed from `seed_root`.
    AddTorrent { metainfo: Path, seed_root: Path },
    /// Pause the torrent of this id.
    PauseTorrent(String),
    /// Resume the torrent of this id.
    ResumeTorrent(String),
    /// Tell the client that the torrent of this id now lies at `base_path`.
    MoveTorrent { id: String, base_path: Path },
}

pub enum StepModel {
    Mkdirp(PathModel),
    CreateDir(PathModel),
    Symlink { link: PathModel, target: PathModel },
    HardLink { existing: PathModel, link: PathModel },
    CreateOrUpdateSymlink { link: PathModel, target: PathModel },
    Rename { from: PathModel, to: PathModel },
    CopyTree { from: PathModel, into: PathModel },
    CopyFile { from: PathModel, to: PathModel },
    RemoveFile(PathModel),
    RemoveTree(PathModel),
    AddTorrent { metainfo: PathModel, seed_root: PathModel },
    PauseTorrent(Seq<char>),
    ResumeTorrent(Seq<char>),
    MoveTorrent { id: Seq<char>, base_path: PathModel },
}

impl View for Step {
    type V = StepModel;

    open spec fn view(&self) -> StepModel {
        match self {
            Step::Mkdirp(path) => StepModel::Mkdirp(path@),
            Step::CreateDir(path) => StepModel::CreateDir(path@),
            Step::Symlink { link, target } => StepModel::Symlink { link: link@, target: target@ },
            Step::HardLink { existing, link } => StepModel::HardLink {
                existing: existing@,
                link: link@,
            },
            Step::CreateOrUpdateSymlink { link, target } => StepModel::CreateOrUpdateSymlink {
                link: link@,
                target: target@,
            },
            Step::Rename { from, to } => StepModel::Rename { from: from@, to: to@ },
            Step::CopyTree { from, into } => StepModel::CopyTree { from: from@, into: into@ },
            Step::CopyFile { from, to } => StepModel::CopyFile { from: from@, to: to@ },
            Step::RemoveFile(path) => StepModel::RemoveFile(path@),
            Step::RemoveTree(path) => StepModel::RemoveTree(path@),
            Step::AddTorrent { metainfo, seed_root } => StepModel::AddTorrent {
                metainfo: metainfo@,
                seed_root: seed_root@,
            },
            Step::PauseTorrent(id) => StepModel::PauseTorrent(id@),
            Step::ResumeTorrent(id) => StepModel::ResumeTorrent(id@),
            Step::MoveTorrent { id, base_path } => StepModel::MoveTorrent {
                id: id@,
                base_path: base_path@,
            },
        }
    }
}

/// The steps of a plan, in order.
pub open spec fn plan_model(steps: Seq<Step>) -> Seq<StepModel> {
    Seq::new(steps.len(), |i: int| steps[i]@)
}

} // verus!
