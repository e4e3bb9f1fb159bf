//! Finding the torrents that are seeded from a path.

use vstd::prelude::*;
use crate::fs::{CollectFilesError, CollectFilesFailure, Walked, collect_files, collected};
use crate::path::{Path, PathModel};
use crate::sycli::{
    ClientTorrentModel, FilterFailure, FilterTorrentsError, Torrent, filter_torrents, filtered,
    texts_model, torrents_model,
};

verus! {

/// The path whose torrents are looked for.
#[derive(Debug)]
pub struct FindArgs {
    pub path: Path,
}

/// Why the torrents of a path could not be found.
#[derive(Debug, PartialEq, Eq)]
pub enum FindError {
    /// The files below the path could not be collected.
    Files(CollectFilesError),
    /// The torrents that own the files could not be selected.
    Torrents(FilterTorrentsError),
}

pub enum FindFailure {
    Files(CollectFilesFailure),
    Torrents(FilterFailure),
}

impl View for FindError {
    type V = FindFailure;

    open spec fn view(&self) -> FindFailure {
        match self {
            FindError::Files(e) => FindFailure::Files(e@),
            FindError::Torrents(e) => FindFailure::Torrents(e@),
        }
    }
}

/// The ids of the torrents, in order.
pub open spec fn ids_of(torrents: Seq<ClientTorrentModel>) -> Seq<Seq<char>> {
    Seq::new(torrents.len(), |i: int| torrents[i].id)
}

/// The ids of the torrents that own the files which a walk below `path` met.
pub open spec fn found_ids(
    path: PathModel,
    entries: Seq<Walked>,
    torrents: Seq<ClientTorrentModel>,
) -> Result<Seq<Seq<char>>, FindFailure> {
    match collected(path, entries) {
        Err(e) => Err(FindFailure::Files(e)),
        Ok((paths, _)) => match filtered(torrents, paths) {
            Err(e) => Err(FindFailure::Torrents(e)),
            Ok(kept) => Ok(ids_of(kept)),
        },
    }
}

impl FindArgs {
    /// The ids of the torrents that are seeded from the path: see
    /// [`found_ids`]. `entries` is what a walk below the path met, `torrents`
    /// all torrents of the client.
    pub fn exec(&self, entries: &Vec<Walked>, torrents: &[Torrent]) -> (r: Result<
        Vec<String>,
        FindError,
    >)
        ensures
            match r {
                Ok(ids) => found_ids(self.path@, entries@, torrents_model(torrents@)) == Ok::<
                    _,
                    FindFailure,
                >(texts_model(ids@)),
                Err(e) => found_ids(self.path@, entries@, torrents_model(torrents@)) == Err::<
                    Seq<Seq<char>>,
                    _,
                >(e@),
            },
    {
        let files = match collect_files(&self.path, entries) {
            Ok(files) => files,
            Err(e) => {
                return Err(FindError::Files(e));
            },
        };
        let kept = match filter_torrents(torrents, &files) {
            Ok(kept) => kept,
            Err(e) => {
                return Err(FindError::Torrents(e));
            },
        };
        let mut ids: Vec<String> = Vec::new();
        let mut i: usize = 0;
        while i < kept.len()
            invariant
                i <= kept@.len(),
                ids@.len() == i,
                forall|t: int| 0 <= t < i ==> (#[trigger] ids@[t])@ == kept@[t].id@,
            decreases kept@.len() - i,
        {
            ids.push(kept[i].id.clone());
            i += 1;
        }
        assert(texts_model(ids@) =~= ids_of(torrents_model(kept@)));
        Ok(ids)
    }
}

} // verus!
