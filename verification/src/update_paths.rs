//! Telling the client and the symlinks of files that were moved by other means.

use vstd::prelude::*;
use crate::path::{Path, PathModel, path_join, path_strip_prefix};
use crate::pathmap::Mapping;
use crate::plan::{Step, StepModel, plan_model};
use crate::sycli::{ClientTorrentModel, Torrent, torrents_model};

verus! {

/// What was moved, and where to.
#[derive(Debug)]
pub struct UpdatePathsArgs {
    /// Where the files lay.
    pub source: Path,
    /// Where they lie now.
    pub target: Path,
    /// Directories whose symlinks are to follow.
    pub symlink_dir: Vec<Path>,
}

/// The client is told of the new base path of each of the first `n` torrents
/// that lay at or below `source`: what stood below `source`, read from
/// `target`.
pub open spec fn rebased_torrents(
    source: PathModel,
    target: PathModel,
    torrents: Seq<ClientTorrentModel>,
    n: int,
) -> Seq<StepModel>
    decreases n,
{
    if n <= 0 {
        Seq::empty()
    } else {
        let before = rebased_torrents(source, target, torrents, n - 1);
        match path_strip_prefix(torrents[n - 1].base_path, source) {
            Some(rest) => before.push(
                StepModel::MoveTorrent {
                    id: torrents[n - 1].id,
                    base_path: path_join(target, rest),
                },
            ),
            None => before,
        }
    }
}

/// Each of the first `n` symlinks that pointed at or below `source` is made
/// to point at the same place below `target`.
pub open spec fn rebased_links(
    source: PathModel,
    target: PathModel,
    links: Seq<PathModel>,
    targets: Seq<PathModel>,
    n: int,
) -> Seq<StepModel>
    decreases n,
{
    if n <= 0 {
        Seq::empty()
    } else {
        let before = rebased_links(source, target, links, targets, n - 1);
        match path_strip_prefix(targets[n - 1], source) {
            Some(rest) => before.push(
                StepModel::CreateOrUpdateSymlink {
                    link: links[n - 1],
                    target: path_join(target, rest),
                },
            ),
            None => before,
        }
    }
}

/// The steps for the symlinks of the first `n` directories.
pub open spec fn rebased_all_links(
    source: PathModel,
    target: PathModel,
    found: Seq<Mapping>,
    n: int,
) -> Seq<StepModel>
    decreases n,
{
    if n <= 0 {
        Seq::empty()
    } else {
        rebased_all_links(source, target, found, n - 1) + rebased_links(
            source,
            target,
            found[n - 1].keys(),
            found[n - 1].targets(),
            found[n - 1].keys().len() as int,
        )
    }
}

impl UpdatePathsArgs {
    /// Plans the update: first the torrents, then the symlinks, directory by
    /// directory. `torrents` are all torrents of the client, and `found[i]`
    /// the symlinks below `symlink_dir[i]`.
    pub fn exec(&self, torrents: &[Torrent], found: &Vec<Mapping>) -> (r: Vec<Step>)
        ensures
            plan_model(r@) == rebased_torrents(
                self.source@,
                self.target@,
                torrents_model(torrents@),
                torrents@.len() as int,
            ) + rebased_all_links(self.source@, self.target@, found@, found@.len() as int),
    {
        let ghost models = torrents_model(torrents@);
        let mut steps: Vec<Step> = Vec::new();
        let mut i: usize = 0;
        assert(plan_model(steps@) =~= Seq::<StepModel>::empty());
        while i < torrents.len()
            invariant
                models == torrents_model(torrents@),
                i <= torrents@.len(),
                plan_model(steps@) == rebased_torrents(self.source@, self.target@, models, i as int),
            decreases torrents@.len() - i,
        {
            assert(models[i as int] == torrents@[i as int]@);
            let ghost before = plan_model(steps@);
            match torrents[i].base_path.strip_prefix(&self.source) {
                Some(rest) => {
                    let step = Step::MoveTorrent {
                        id: torrents[i].id.clone(),
                        base_path: self.target.join(&rest),
                    };
                    steps.push(step);
                    assert(plan_model(steps@) =~= before.push(step@));
                },
                None => {},
            }
            i += 1;
        }
        let ghost moved = plan_model(steps@);
        let mut d: usize = 0;
        assert(plan_model(steps@) =~= moved + rebased_all_links(
            self.source@,
            self.target@,
            found@,
            0,
        ));
        while d < found.len()
            invariant
                d <= found@.len(),
                plan_model(steps@) == moved + rebased_all_links(
                    self.source@,
                    self.target@,
                    found@,
                    d as int,
                ),
            decreases found@.len() - d,
        {
            let links = &found[d];
            let n = links.len();
            let ghost start = plan_model(steps@);
            let mut k: usize = 0;
            assert(plan_model(steps@) =~= start + rebased_links(
                self.source@,
                self.target@,
                links.keys(),
                links.targets(),
                0,
            ));
            while k < n
                invariant
                    n == links.keys().len(),
                    n == links.targets().len(),
                    k <= n,
                    plan_model(steps@) == start + rebased_links(
                        self.source@,
                        self.target@,
                        links.keys(),
                        links.targets(),
                        k as int,
                    ),
                decreases n - k,
            {
                let ghost before = plan_model(steps@);
                match links.target(k).strip_prefix(&self.source) {
                    Some(rest) => {
                        let step = Step::CreateOrUpdateSymlink {
                            link: links.path(k).clone(),
                            target: self.target.join(&rest),
                        };
                        steps.push(step);
                        assert(plan_model(steps@) =~= before.push(step@));
                        assert(plan_model(steps@) =~= start + rebased_links(
                            self.source@,
                            self.target@,
                            links.keys(),
                            links.targets(),
                            k + 1,
                        ));
                    },
                    None => {},
                }
                k += 1;
            }
            assert(plan_model(steps@) =~= moved + rebased_all_links(
                self.source@,
                self.target@,
                found@,
                d + 1,
            ));
            d += 1;
        }
        steps
    }
}

} // verus!
