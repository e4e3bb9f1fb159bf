//! Choosing, for each file of a torrent, the local file that stands for it.

use vstd::prelude::*;
use std::collections::HashMap;
use crate::fs::Walked;
use crate::torrent::File;
use crate::path::{
    Path, PathModel, common_prefix_len, common_suffix_len, path_lt, path_order,
    remove_common_suffix, option_model, lemma_path_order_strict_total,
};
use crate::pathmap::{Mapping, path_models, absorb};

verus! {

/// The view of a borrowed path that may be missing.
pub open spec fn option_ref_model(path: Option<&Path>) -> Option<PathModel> {
    match path {
        Some(p) => Some(p@),
        None => None,
    }
}

/// How many leading components a candidate shares with the preferred prefix;
/// none where no prefix is preferred.
pub open spec fn preferred_len(candidate: PathModel, preferred: Option<PathModel>) -> nat {
    match preferred {
        Some(p) => common_prefix_len(candidate, p),
        None => 0,
    }
}

/// Whether candidate `b` is the better one for the file at `rel`: it shares
/// more trailing components with `rel`; or as many, and more leading ones with
/// the preferred prefix; or as many of both, and sorts after `a`.
pub open spec fn candidate_lt(
    rel: PathModel,
    preferred: Option<PathModel>,
    a: PathModel,
    b: PathModel,
) -> bool {
    let sa = common_suffix_len(a, rel);
    let sb = common_suffix_len(b, rel);
    let pa = preferred_len(a, preferred);
    let pb = preferred_len(b, preferred);
    sa < sb || (sa == sb && (pa < pb || (pa == pb && path_lt(a, b))))
}

/// `chosen` is among the candidates and none of them is better.
pub open spec fn is_best_candidate(
    rel: PathModel,
    preferred: Option<PathModel>,
    candidates: Seq<PathModel>,
    chosen: PathModel,
) -> bool {
    &&& candidates.contains(chosen)
    &&& forall|i: int|
        0 <= i < candidates.len() ==> !candidate_lt(rel, preferred, chosen, #[trigger] candidates[i])
}

pub proof fn lemma_candidate_lt_irreflexive(
    rel: PathModel,
    preferred: Option<PathModel>,
    a: PathModel,
)
    ensures
        !candidate_lt(rel, preferred, a, a),
{
    lemma_path_order_strict_total();
    let lt = path_order();
    assert(lt(a, a) == path_lt(a, a));
}

pub proof fn lemma_candidate_lt_transitive(
    rel: PathModel,
    preferred: Option<PathModel>,
    a: PathModel,
    b: PathModel,
    c: PathModel,
)
    requires
        candidate_lt(rel, preferred, a, b),
        candidate_lt(rel, preferred, b, c),
    ensures
        candidate_lt(rel, preferred, a, c),
{
    lemma_path_order_strict_total();
    let lt = path_order();
    assert(lt(a, b) == path_lt(a, b));
    assert(lt(b, c) == path_lt(b, c));
    assert(lt(a, c) == path_lt(a, c));
}

pub proof fn lemma_candidate_lt_connected(
    rel: PathModel,
    preferred: Option<PathModel>,
    a: PathModel,
    b: PathModel,
)
    requires
        a != b,
    ensures
        candidate_lt(rel, preferred, a, b) || candidate_lt(rel, preferred, b, a),
{
    lemma_path_order_strict_total();
    let lt = path_order();
    assert(lt(a, b) == path_lt(a, b));
    assert(lt(b, a) == path_lt(b, a));
}

/// The same file, candidates and preferred prefix always give the same choice:
/// two candidates that are both best are one and the same path.
pub proof fn lemma_best_candidate_unique(
    rel: PathModel,
    preferred: Option<PathModel>,
    candidates: Seq<PathModel>,
    first: PathModel,
    second: PathModel,
)
    requires
        is_best_candidate(rel, preferred, candidates, first),
        is_best_candidate(rel, preferred, candidates, second),
    ensures
        first == second,
{
    if first != second {
        lemma_candidate_lt_connected(rel, preferred, first, second);
        let i = candidates.index_of(first);
        let j = candidates.index_of(second);
        assert(candidates[i] == first);
        assert(candidates[j] == second);
    }
}

/// Picks the best candidate for the file at `path`: see [`candidate_lt`].
/// There is none to pick where there is no candidate.
pub fn get_best_candidate<'a>(
    path: &'a Path,
    candidates: &'a Vec<Path>,
    preferred_prefix: Option<&Path>,
) -> (r: Option<(&'a Path, &'a Path)>)
    ensures
        r is Some <==> candidates@.len() > 0,
        r matches Some((rel, chosen)) ==> rel@ == path@ && is_best_candidate(
            path@,
            option_ref_model(preferred_prefix),
            path_models(candidates@),
            chosen@,
        ),
{
    if candidates.len() == 0 {
        return None;
    }
    let ghost preferred = option_ref_model(preferred_prefix);
    let ghost models = path_models(candidates@);
    let mut best: usize = 0;
    let mut best_suffix = candidates[0].shared_suffix(path);
    let mut best_prefix = match preferred_prefix {
        Some(p) => candidates[0].shared_prefix(p),
        None => 0,
    };
    let mut i: usize = 1;
    proof {
        lemma_candidate_lt_irreflexive(path@, preferred, models[0]);
    }
    while i < candidates.len()
        invariant
            preferred == option_ref_model(preferred_prefix),
            models == path_models(candidates@),
            1 <= i <= candidates@.len(),
            best < i,
            best_suffix == common_suffix_len(models[best as int], path@),
            best_prefix == preferred_len(models[best as int], preferred),
            forall|t: int|
                0 <= t < i ==> !candidate_lt(path@, preferred, models[best as int], #[trigger] models[t]),
        decreases candidates@.len() - i,
    {
        let suffix = candidates[i].shared_suffix(path);
        let prefix = match preferred_prefix {
            Some(p) => candidates[i].shared_prefix(p),
            None => 0,
        };
        let better = best_suffix < suffix || (best_suffix == suffix && (best_prefix < prefix || (
        best_prefix == prefix && candidates[best].sorts_before(&candidates[i]))));
        assert(better == candidate_lt(path@, preferred, models[best as int], models[i as int]));
        if better {
            proof {
                let old_best = models[best as int];
                let new_best = models[i as int];
                assert forall|t: int| 0 <= t < i + 1 implies !candidate_lt(
                    path@,
                    preferred,
                    new_best,
                    #[trigger] models[t],
                ) by {
                    if t == i {
                        lemma_candidate_lt_irreflexive(path@, preferred, new_best);
                    } else if candidate_lt(path@, preferred, new_best, models[t]) {
                        lemma_candidate_lt_transitive(path@, preferred, old_best, new_best, models[t]);
                    }
                }
            }
            best = i;
            best_suffix = suffix;
            best_prefix = prefix;
        }
        i += 1;
    }
    assert(models[best as int] == candidates@[best as int]@);
    Some((path, &candidates[best]))
}

/// The paths of the plain files with a known size of `size`, in the order in
/// which the walk met them.
pub open spec fn files_of_size(entries: Seq<Walked>, size: u64) -> Seq<PathModel>
    decreases entries.len(),
{
    if entries.len() == 0 {
        Seq::empty()
    } else {
        let before = files_of_size(entries.drop_last(), size);
        match entries.last() {
            Walked::File(path, Ok(s)) => if s == size {
                before.push(path@)
            } else {
                before
            },
            _ => before,
        }
    }
}

/// The files found in the source directories, by size.
pub struct CandidateIndex {
    by_size: HashMap<u64, Vec<Path>>,
}

impl CandidateIndex {
    #[verifier::type_invariant]
    spec fn inv(self) -> bool {
        forall|size: u64| #[trigger]
            self.by_size@.contains_key(size) ==> self.by_size@[size]@.len() > 0
    }

    /// The files of the given size.
    pub closed spec fn paths_of(&self, size: u64) -> Seq<PathModel> {
        if self.by_size@.contains_key(size) {
            path_models(self.by_size@[size]@)
        } else {
            Seq::empty()
        }
    }

    /// The files of the given size, if there are any.
    pub fn get(&self, size: u64) -> (r: Option<&Vec<Path>>)
        ensures
            match r {
                Some(paths) => path_models(paths@) == self.paths_of(size) && paths@.len() > 0,
                None => self.paths_of(size).len() == 0,
            },
    {
        broadcast use vstd::std_specs::hash::group_hash_axioms;

        proof {
            use_type_invariant(self);
        }
        let r = self.by_size.get(&size);
        proof {
            if let Some(paths) = r {
                assert(self.by_size@.contains_key(size));
            } else {
                assert(path_models(Seq::<Path>::empty()) =~= Seq::<PathModel>::empty());
            }
        }
        r
    }
}

/// Indexes by size the plain files that a walk of the source directories
/// met. Entries that are no plain files, entries that could not be read and
/// files without a known size are passed over.
pub fn enumerate_files_with_sizes(entries: &Vec<Walked>) -> (r: CandidateIndex)
    ensures
        forall|size: u64| #[trigger] r.paths_of(size) == files_of_size(entries@, size),
{
    broadcast use vstd::std_specs::hash::group_hash_axioms;

    let mut by_size: HashMap<u64, Vec<Path>> = HashMap::new();
    let mut i: usize = 0;
    assert(entries@.take(0) =~= Seq::<Walked>::empty());
    while i < entries.len()
        invariant
            i <= entries@.len(),
            forall|size: u64| #[trigger]
                by_size@.contains_key(size) ==> by_size@[size]@.len() > 0 && path_models(
                    by_size@[size]@,
                ) == files_of_size(entries@.take(i as int), size),
            forall|size: u64|
                !by_size@.contains_key(size) ==> #[trigger] files_of_size(
                    entries@.take(i as int),
                    size,
                ).len() == 0,
        decreases entries@.len() - i,
    {
        proof {
            assert(entries@.take(i + 1).drop_last() =~= entries@.take(i as int));
            assert(entries@.take(i + 1).last() == entries@[i as int]);
        }
        match &entries[i] {
            Walked::File(path, Ok(size)) => {
                let ghost before = by_size@;
                let mut paths = match by_size.remove(size) {
                    Some(paths) => paths,
                    None => Vec::new(),
                };
                let ghost earlier = path_models(paths@);
                assert(earlier =~= files_of_size(entries@.take(i as int), *size));
                paths.push(path.clone());
                assert(path_models(paths@) =~= earlier.push(path@));
                by_size.insert(*size, paths);
                assert forall|other: u64| #[trigger] by_size@.contains_key(other) implies by_size@[other]@.len()
                    > 0 && path_models(by_size@[other]@) == files_of_size(
                    entries@.take(i + 1),
                    other,
                ) by {
                    if other != *size {
                        assert(before.contains_key(other));
                    }
                }
                assert forall|other: u64| !by_size@.contains_key(other) implies #[trigger] files_of_size(
                    entries@.take(i + 1),
                    other,
                ).len() == 0 by {
                    assert(!before.contains_key(other));
                    assert(files_of_size(entries@.take(i as int), other).len() == 0);
                }
            },
            _ => {
                assert forall|other: u64|
                    #[trigger] files_of_size(entries@.take(i + 1), other) == files_of_size(
                        entries@.take(i as int),
                        other,
                    ) by {}
                assert forall|other: u64| !by_size@.contains_key(other) implies #[trigger] files_of_size(
                    entries@.take(i + 1),
                    other,
                ).len() == 0 by {
                    assert(files_of_size(entries@.take(i as int), other).len() == 0);
                }
            },
        }
        i += 1;
    }
    assert(entries@.take(entries@.len() as int) =~= entries@);
    let index = CandidateIndex { by_size };
    assert forall|size: u64| #[trigger] index.paths_of(size) == files_of_size(entries@, size) by {
        if !by_size@.contains_key(size) {
            assert(files_of_size(entries@, size) =~= Seq::<PathModel>::empty());
        }
    }
    index
}

/// A file of a torrent with the local files that could stand for it.
pub struct FileCandidates<'a> {
    pub path: &'a Path,
    pub length: u64,
    pub candidates: &'a Vec<Path>,
}

/// Why no mapping could be made.
#[derive(Debug, PartialEq, Eq)]
pub enum CandidateError {
    /// No local file has the size of the torrent's file at this path.
    NoCandidates(Path),
}

/// Looks up, for each file of a torrent, the local files of its size. The
/// first file for which there is none fails the lookup.
pub fn find_candidates<'a>(files: &'a Vec<File>, index: &'a CandidateIndex) -> (r: Result<
    Vec<FileCandidates<'a>>,
    CandidateError,
>)
    ensures
        match r {
            Ok(found) => {
                &&& found@.len() == files@.len()
                &&& forall|i: int|
                    0 <= i < files@.len() ==> {
                        &&& (#[trigger] found@[i]).path@ == files@[i].path@
                        &&& found@[i].length == files@[i].length
                        &&& found@[i].candidates@.len() > 0
                        &&& path_models(found@[i].candidates@) == index.paths_of(files@[i].length)
                    }
            },
            Err(CandidateError::NoCandidates(path)) => exists|i: int|
                {
                    &&& 0 <= i < files@.len()
                    &&& path@ == files@[i].path@
                    &&& #[trigger] index.paths_of(files@[i].length).len() == 0
                    &&& forall|j: int|
                        0 <= j < i ==> (#[trigger] index.paths_of(files@[j].length)).len() > 0
                },
        },
{
    let mut found: Vec<FileCandidates<'a>> = Vec::new();
    let mut i: usize = 0;
    while i < files.len()
        invariant
            i <= files@.len(),
            found@.len() == i,
            forall|t: int|
                0 <= t < i ==> {
                    &&& (#[trigger] found@[t]).path@ == files@[t].path@
                    &&& found@[t].length == files@[t].length
                    &&& found@[t].candidates@.len() > 0
                    &&& path_models(found@[t].candidates@) == index.paths_of(files@[t].length)
                },
        decreases files@.len() - i,
    {
        match index.get(files[i].length) {
            Some(candidates) => {
                assert(path_models(candidates@).len() == candidates@.len());
                found.push(
                    FileCandidates { path: &files[i].path, length: files[i].length, candidates },
                );
            },
            None => {
                assert forall|j: int| 0 <= j < i implies (#[trigger] index.paths_of(
                    files@[j].length,
                )).len() > 0 by {
                    assert(path_models(found@[j].candidates@).len() == found@[j].candidates@.len());
                }
                return Err(CandidateError::NoCandidates(files[i].path.clone()));
            },
        }
        i += 1;
    }
    Ok(found)
}

/// The place of the largest file; of the last of them where several are as
/// large. `-1` where there is no file.
pub open spec fn largest_file(entries: Seq<FileCandidates>) -> int
    decreases entries.len(),
{
    if entries.len() == 0 {
        -1
    } else {
        let before = largest_file(entries.drop_last());
        if before < 0 || entries[before].length <= entries.last().length {
            entries.len() - 1
        } else {
            before
        }
    }
}

/// The directory to prefer for all files: where the largest file has a single
/// candidate and that candidate ends in the file's own path, what stands
/// before that path in it.
pub open spec fn preferred_root(entries: Seq<FileCandidates>) -> Option<PathModel> {
    let at = largest_file(entries);
    if at >= 0 && entries[at].candidates@.len() == 1 {
        remove_common_suffix(entries[at].candidates@[0]@, entries[at].path@)
    } else {
        None
    }
}

/// The paths without their repetitions: each stands where it first came.
pub open spec fn first_occurrences(paths: Seq<PathModel>) -> Seq<PathModel> {
    absorb(Seq::empty(), paths)
}

pub open spec fn entry_paths(entries: Seq<FileCandidates>) -> Seq<PathModel> {
    Seq::new(entries.len(), |i: int| entries[i].path@)
}

/// `target` is the best candidate of entry `t`, which is the first for `path`.
pub open spec fn picked_from(
    entries: Seq<FileCandidates>,
    t: int,
    path: PathModel,
    target: PathModel,
) -> bool {
    &&& 0 <= t < entries.len()
    &&& entries[t].path@ == path
    &&& forall|u: int| 0 <= u < t ==> (#[trigger] entries[u]).path@ != path
    &&& is_best_candidate(
        path,
        preferred_root(entries),
        path_models(entries[t].candidates@),
        target,
    )
}

/// `path` is mapped to the best candidate of the first entry that names it.
pub open spec fn picked(entries: Seq<FileCandidates>, path: PathModel, target: PathModel) -> bool {
    exists|t: int| picked_from(entries, t, path, target)
}

/// The preferred directory of the entries: see [`preferred_root`].
pub fn find_preferred_root(entries: &Vec<FileCandidates>) -> (r: Option<Path>)
    ensures
        option_model(r) == preferred_root(entries@),
{
    if entries.len() == 0 {
        return None;
    }
    let mut at: usize = 0;
    let mut i: usize = 1;
    assert(entries@.take(1).drop_last() =~= Seq::<FileCandidates>::empty());
    assert(largest_file(entries@.take(1).drop_last()) == -1);
    assert(largest_file(entries@.take(1)) == 0);
    while i < entries.len()
        invariant
            1 <= i <= entries@.len(),
            at < i,
            at == largest_file(entries@.take(i as int)),
        decreases entries@.len() - i,
    {
        proof {
            assert(entries@.take(i + 1).drop_last() =~= entries@.take(i as int));
        }
        if entries[at].length <= entries[i].length {
            at = i;
        }
        i += 1;
    }
    assert(entries@.take(entries@.len() as int) =~= entries@);
    if entries[at].candidates.len() == 1 {
        entries[at].candidates[0].remove_common_suffix(entries[at].path)
    } else {
        None
    }
}

/// Maps each file to the best of its candidates: see [`candidate_lt`], with
/// the directory of [`preferred_root`] preferred. A path that several entries
/// name is mapped once, from the first of them. Two files may well be mapped
/// to the same candidate.
pub fn pick_candidates(entries: &Vec<FileCandidates>) -> (r: Mapping)
    requires
        forall|i: int| 0 <= i < entries@.len() ==> (#[trigger] entries@[i]).candidates@.len() > 0,
    ensures
        r.keys() == first_occurrences(entry_paths(entries@)),
        r.targets().len() == r.keys().len(),
        forall|k: int|
            0 <= k < r.keys().len() ==> picked(entries@, #[trigger] r.keys()[k], r.targets()[k]),
{
    let preferred = find_preferred_root(entries);
    let mut mapping = Mapping::new();
    let mut i: usize = 0;
    let ghost paths = entry_paths(entries@);
    assert(paths.take(0) =~= Seq::<PathModel>::empty());
    while i < entries.len()
        invariant
            i <= entries@.len(),
            paths == entry_paths(entries@),
            option_model(preferred) == preferred_root(entries@),
            forall|t: int| 0 <= t < entries@.len() ==> (#[trigger] entries@[t]).candidates@.len() > 0,
            mapping.keys() == first_occurrences(paths.take(i as int)),
            mapping.targets().len() == mapping.keys().len(),
            forall|u: int|
                0 <= u < i ==> mapping.keys().contains(#[trigger] paths[u]),
            forall|k: int|
                0 <= k < mapping.keys().len() ==> picked(
                    entries@,
                    #[trigger] mapping.keys()[k],
                    mapping.targets()[k],
                ),
        decreases entries@.len() - i,
    {
        proof {
            assert(paths.take(i + 1).drop_last() =~= paths.take(i as int));
            assert(paths.take(i + 1).last() == paths[i as int]);
        }
        let entry = &entries[i];
        let ghost before_keys = mapping.keys();
        let ghost before_targets = mapping.targets();
        if !mapping.contains_key(entry.path) {
            let choice = match &preferred {
                Some(p) => get_best_candidate(entry.path, entry.candidates, Some(p)),
                None => get_best_candidate(entry.path, entry.candidates, None),
            };
            match choice {
                Some((_, chosen)) => {
                    let _ = mapping.insert(entry.path.clone(), chosen.clone());
                    proof {
                        assert(picked_from(entries@, i as int, paths[i as int], chosen@)) by {
                            assert forall|u: int| 0 <= u < i implies (#[trigger] entries@[u]).path@
                                != paths[i as int] by {
                                assert(before_keys.contains(paths[u]));
                            }
                        }
                        assert forall|k: int| 0 <= k < mapping.keys().len() implies picked(
                            entries@,
                            #[trigger] mapping.keys()[k],
                            mapping.targets()[k],
                        ) by {
                            if k < before_keys.len() {
                                assert(picked(entries@, before_keys[k], before_targets[k]));
                                assert(mapping.keys()[k] == before_keys[k]);
                                assert(mapping.targets()[k] == before_targets[k]);
                            }
                        }
                        assert forall|u: int| 0 <= u < i + 1 implies mapping.keys().contains(
                            #[trigger] paths[u],
                        ) by {
                            if u < i {
                                let at = before_keys.index_of(paths[u]);
                                assert(mapping.keys()[at] == paths[u]);
                            } else {
                                assert(mapping.keys()[before_keys.len() as int] == paths[u]);
                            }
                        }
                    }
                },
                None => {
                    assert(false);
                },
            }
        }
        i += 1;
    }
    assert(paths.take(entries@.len() as int) =~= paths);
    mapping
}

} // verus!
