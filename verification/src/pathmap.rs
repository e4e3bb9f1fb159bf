//! Small maps keyed by paths, which keep their entries in the order in which
//! they came.

use vstd::prelude::*;
use crate::path::{Path, PathModel};

verus! {

pub open spec fn path_models(paths: Seq<Path>) -> Seq<PathModel> {
    Seq::new(paths.len(), |i: int| paths[i]@)
}

/// The first place at which `key` stands in `paths`.
pub fn find_path(paths: &Vec<Path>, key: &Path) -> (r: Option<usize>)
    ensures
        match r {
            Some(i) => i < paths@.len() && paths@[i as int]@ == key@ && forall|j: int|
                0 <= j < i ==> paths@[j]@ != key@,
            None => !path_models(paths@).contains(key@),
        },
{
    let mut i: usize = 0;
    while i < paths.len()
        invariant
            i <= paths@.len(),
            forall|j: int| 0 <= j < i ==> paths@[j]@ != key@,
        decreases paths@.len() - i,
    {
        if paths[i].same(key) {
            return Some(i);
        }
        i += 1;
    }
    assert forall|j: int| 0 <= j < path_models(paths@).len() implies path_models(paths@)[j]
        != key@ by {
        assert(path_models(paths@)[j] == paths@[j]@);
    }
    None
}

/// A copy of the paths.
pub fn clone_paths(paths: &Vec<Path>) -> (r: Vec<Path>)
    ensures
        path_models(r@) == path_models(paths@),
{
    let mut out: Vec<Path> = Vec::new();
    let mut i: usize = 0;
    while i < paths.len()
        invariant
            i <= paths@.len(),
            out@.len() == i,
            forall|j: int| 0 <= j < i ==> out@[j]@ == paths@[j]@,
        decreases paths@.len() - i,
    {
        out.push(paths[i].clone());
        i += 1;
    }
    assert(path_models(out@) =~= path_models(paths@));
    out
}

/// The sizes of files, by path. No path stands in it twice.
#[derive(Debug, PartialEq, Eq)]
pub struct FileSizes {
    paths: Vec<Path>,
    sizes: Vec<u64>,
}

impl FileSizes {
    #[verifier::type_invariant]
    spec fn inv(self) -> bool {
        self.paths@.len() == self.sizes@.len() && path_models(self.paths@).no_duplicates()
    }

    /// The paths, in the order in which they came.
    pub closed spec fn keys(&self) -> Seq<PathModel> {
        path_models(self.paths@)
    }

    /// The size of each path, in the same order.
    pub closed spec fn sizes(&self) -> Seq<u64> {
        self.sizes@
    }

    /// The entries as a map.
    pub open spec fn as_map(&self) -> Map<PathModel, u64> {
        Map::new(
            |k: PathModel| self.keys().contains(k),
            |k: PathModel| self.sizes()[self.keys().index_of(k)],
        )
    }

    pub fn new() -> (r: FileSizes)
        ensures
            r.keys() == Seq::<PathModel>::empty(),
            r.sizes() == Seq::<u64>::empty(),
    {
        let paths: Vec<Path> = Vec::new();
        assert(path_models(paths@) =~= Seq::<PathModel>::empty());
        FileSizes { paths, sizes: Vec::new() }
    }

    /// The number of entries. Every path has its size, and none stands twice.
    pub fn len(&self) -> (r: usize)
        ensures
            r == self.keys().len(),
            self.keys().len() == self.sizes().len(),
            self.keys().no_duplicates(),
    {
        proof {
            use_type_invariant(self);
        }
        self.paths.len()
    }

    /// The path of entry `i`.
    pub fn path(&self, i: usize) -> (r: &Path)
        requires
            i < self.keys().len(),
        ensures
            r@ == self.keys()[i as int],
    {
        &self.paths[i]
    }

    /// The size of entry `i`.
    pub fn size(&self, i: usize) -> (r: u64)
        requires
            i < self.keys().len(),
        ensures
            r == self.sizes()[i as int],
    {
        proof {
            use_type_invariant(self);
        }
        self.sizes[i]
    }

    /// The place of `path` among the entries.
    pub fn position(&self, path: &Path) -> (r: Option<usize>)
        ensures
            match r {
                Some(i) => i < self.keys().len() && self.keys()[i as int] == path@,
                None => !self.keys().contains(path@),
            },
    {
        find_path(&self.paths, path)
    }

    pub fn contains_key(&self, path: &Path) -> (r: bool)
        ensures
            r == self.keys().contains(path@),
    {
        match find_path(&self.paths, path) {
            Some(i) => {
                assert(self.keys()[i as int] == path@);
                true
            },
            None => false,
        }
    }

    /// The size recorded for `path`.
    pub fn get(&self, path: &Path) -> (r: Option<u64>)
        ensures
            match r {
                Some(size) => self.keys().contains(path@) && size == self.sizes()[self.keys().index_of(
                    path@,
                )],
                None => !self.keys().contains(path@),
            },
    {
        proof {
            use_type_invariant(self);
        }
        match find_path(&self.paths, path) {
            Some(i) => {
                assert(self.keys()[i as int] == path@);
                Some(self.sizes[i])
            },
            None => None,
        }
    }

    /// Records `size` for `path`. A path that is new goes to the end; one that
    /// is there keeps its place, and its earlier size is handed back.
    pub fn insert(&mut self, path: Path, size: u64) -> (r: Option<u64>)
        ensures
            match r {
                Some(earlier) => {
                    let at = old(self).keys().index_of(path@);
                    &&& old(self).keys().contains(path@)
                    &&& earlier == old(self).sizes()[at]
                    &&& final(self).keys() == old(self).keys()
                    &&& final(self).sizes() == old(self).sizes().update(at, size)
                },
                None => {
                    &&& !old(self).keys().contains(path@)
                    &&& final(self).keys() == old(self).keys().push(path@)
                    &&& final(self).sizes() == old(self).sizes().push(size)
                },
            },
    {
        proof {
            use_type_invariant(&*self);
        }
        let mut taken = FileSizes::new();
        core::mem::swap(self, &mut taken);
        let FileSizes { mut paths, mut sizes } = taken;
        let ghost before = path_models(paths@);
        let r = match find_path(&paths, &path) {
            Some(i) => {
                assert(before[i as int] == path@);
                let earlier = sizes[i];
                sizes.set(i, size);
                Some(earlier)
            },
            None => {
                paths.push(path);
                sizes.push(size);
                assert(path_models(paths@) =~= before.push(path@));
                None
            },
        };
        *self = FileSizes { paths, sizes };
        r
    }
}

impl Clone for FileSizes {
    fn clone(&self) -> (r: FileSizes)
        ensures
            r.keys() == self.keys(),
            r.sizes() == self.sizes(),
    {
        proof {
            use_type_invariant(self);
        }
        let paths = clone_paths(&self.paths);
        let mut sizes: Vec<u64> = Vec::new();
        let mut i: usize = 0;
        while i < self.sizes.len()
            invariant
                i <= self.sizes@.len(),
                sizes@ == self.sizes@.take(i as int),
            decreases self.sizes@.len() - i,
        {
            sizes.push(self.sizes[i]);
            assert(sizes@ =~= self.sizes@.take(i + 1));
            i += 1;
        }
        assert(sizes@ =~= self.sizes@);
        assert(paths@.len() == path_models(paths@).len());
        assert(self.paths@.len() == path_models(self.paths@).len());
        FileSizes { paths, sizes }
    }
}

/// Paths by path: which source file stands for which file of a torrent, or
/// where each symlink points. No key stands in it twice.
#[derive(Debug, PartialEq, Eq)]
pub struct Mapping {
    paths: Vec<Path>,
    targets: Vec<Path>,
}

impl Mapping {
    #[verifier::type_invariant]
    spec fn inv(self) -> bool {
        self.paths@.len() == self.targets@.len() && path_models(self.paths@).no_duplicates()
    }

    /// The keys, in the order in which they came.
    pub closed spec fn keys(&self) -> Seq<PathModel> {
        path_models(self.paths@)
    }

    /// What each key is mapped to, in the same order.
    pub closed spec fn targets(&self) -> Seq<PathModel> {
        path_models(self.targets@)
    }

    /// The entries as a map.
    pub open spec fn as_map(&self) -> Map<PathModel, PathModel> {
        Map::new(
            |k: PathModel| self.keys().contains(k),
            |k: PathModel| self.targets()[self.keys().index_of(k)],
        )
    }

    pub fn new() -> (r: Mapping)
        ensures
            r.keys() == Seq::<PathModel>::empty(),
            r.targets() == Seq::<PathModel>::empty(),
    {
        let paths: Vec<Path> = Vec::new();
        assert(path_models(paths@) =~= Seq::<PathModel>::empty());
        Mapping { paths, targets: Vec::new() }
    }

    /// The number of entries. Every key has its target, and none stands twice.
    pub fn len(&self) -> (r: usize)
        ensures
            r == self.keys().len(),
            self.keys().len() == self.targets().len(),
            self.keys().no_duplicates(),
    {
        proof {
            use_type_invariant(self);
        }
        self.paths.len()
    }

    /// The key of entry `i`.
    pub fn path(&self, i: usize) -> (r: &Path)
        requires
            i < self.keys().len(),
        ensures
            r@ == self.keys()[i as int],
    {
        &self.paths[i]
    }

    /// The target of entry `i`.
    pub fn target(&self, i: usize) -> (r: &Path)
        requires
            i < self.keys().len(),
        ensures
            r@ == self.targets()[i as int],
    {
        proof {
            use_type_invariant(self);
        }
        &self.targets[i]
    }

    /// The place of `path` among the keys.
    pub fn position(&self, path: &Path) -> (r: Option<usize>)
        ensures
            match r {
                Some(i) => i < self.keys().len() && self.keys()[i as int] == path@,
                None => !self.keys().contains(path@),
            },
    {
        find_path(&self.paths, path)
    }

    pub fn contains_key(&self, path: &Path) -> (r: bool)
        ensures
            r == self.keys().contains(path@),
    {
        match find_path(&self.paths, path) {
            Some(i) => {
                assert(self.keys()[i as int] == path@);
                true
            },
            None => false,
        }
    }

    /// What `path` is mapped to.
    pub fn get(&self, path: &Path) -> (r: Option<&Path>)
        ensures
            match r {
                Some(target) => self.keys().contains(path@) && target@
                    == self.targets()[self.keys().index_of(path@)],
                None => !self.keys().contains(path@),
            },
    {
        proof {
            use_type_invariant(self);
        }
        match find_path(&self.paths, path) {
            Some(i) => {
                assert(self.keys()[i as int] == path@);
                Some(&self.targets[i])
            },
            None => None,
        }
    }

    /// Maps `path` to `target`. A key that is new goes to the end; one that is
    /// there keeps its place, and its earlier target is handed back.
    pub fn insert(&mut self, path: Path, target: Path) -> (r: Option<Path>)
        ensures
            match r {
                Some(earlier) => {
                    let at = old(self).keys().index_of(path@);
                    &&& old(self).keys().contains(path@)
                    &&& earlier@ == old(self).targets()[at]
                    &&& final(self).keys() == old(self).keys()
                    &&& final(self).targets() == old(self).targets().update(at, target@)
                },
                None => {
                    &&& !old(self).keys().contains(path@)
                    &&& final(self).keys() == old(self).keys().push(path@)
                    &&& final(self).targets() == old(self).targets().push(target@)
                },
            },
    {
        proof {
            use_type_invariant(&*self);
        }
        let mut taken = Mapping::new();
        core::mem::swap(self, &mut taken);
        let Mapping { mut paths, mut targets } = taken;
        let ghost before = path_models(paths@);
        let ghost before_targets = path_models(targets@);
        let r = match find_path(&paths, &path) {
            Some(i) => {
                assert(before[i as int] == path@);
                targets.push(target);
                let earlier = targets.swap_remove(i);
                assert(path_models(targets@) =~= before_targets.update(i as int, target@));
                Some(earlier)
            },
            None => {
                paths.push(path);
                targets.push(target);
                assert(path_models(paths@) =~= before.push(path@));
                assert(path_models(targets@) =~= before_targets.push(target@));
                None
            },
        };
        *self = Mapping { paths, targets };
        r
    }
}

impl Clone for Mapping {
    fn clone(&self) -> (r: Mapping)
        ensures
            r.keys() == self.keys(),
            r.targets() == self.targets(),
    {
        proof {
            use_type_invariant(self);
        }
        let paths = clone_paths(&self.paths);
        let targets = clone_paths(&self.targets);
        assert(paths@.len() == path_models(paths@).len());
        assert(self.paths@.len() == path_models(self.paths@).len());
        assert(targets@.len() == path_models(targets@).len());
        assert(self.targets@.len() == path_models(self.targets@).len());
        Mapping { paths, targets }
    }
}

/// `seen` with the items of `more` that it does not hold yet, each added at
/// the end where it first comes.
pub open spec fn absorb<T>(seen: Seq<T>, more: Seq<T>) -> Seq<T>
    decreases more.len(),
{
    if more.len() == 0 {
        seen
    } else {
        let before = absorb(seen, more.drop_last());
        if before.contains(more.last()) {
            before
        } else {
            before.push(more.last())
        }
    }
}

/// Adding items that are new keeps a list free of repetitions.
pub proof fn lemma_absorb_no_duplicates<T>(seen: Seq<T>, more: Seq<T>)
    requires
        seen.no_duplicates(),
    ensures
        absorb(seen, more).no_duplicates(),
        forall|p: T| seen.contains(p) ==> #[trigger] absorb(seen, more).contains(p),
        forall|p: T| more.contains(p) ==> #[trigger] absorb(seen, more).contains(p),
        forall|p: T| #[trigger] absorb(seen, more).contains(p) ==> seen.contains(p) || more.contains(p),
    decreases more.len(),
{
    if more.len() > 0 {
        let before = absorb(seen, more.drop_last());
        lemma_absorb_no_duplicates(seen, more.drop_last());
        let all = absorb(seen, more);
        assert forall|p: T| seen.contains(p) implies #[trigger] all.contains(p) by {
            let i = before.index_of(p);
            assert(before.contains(p));
            assert(all[i] == p);
        }
        assert forall|p: T| more.contains(p) implies #[trigger] all.contains(p) by {
            let i = more.index_of(p);
            if i < more.len() - 1 {
                assert(more.drop_last()[i] == p);
                assert(before.contains(p));
                let j = before.index_of(p);
                assert(all[j] == p);
            } else if before.contains(p) {
            } else {
                assert(all[before.len() as int] == p);
            }
        }
        assert forall|p: T| #[trigger] all.contains(p) implies seen.contains(p) || more.contains(
            p,
        ) by {
            let i = all.index_of(p);
            if i < before.len() {
                assert(before[i] == p);
                assert(before.contains(p));
                if !seen.contains(p) {
                    let j = more.drop_last().index_of(p);
                    assert(more[j] == p);
                }
            } else {
                assert(more[more.len() - 1] == p);
            }
        }
    }
}

} // verus!
