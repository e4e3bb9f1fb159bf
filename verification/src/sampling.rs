//! Choosing the pieces to check, and naming the files that failed.

use vstd::prelude::*;
use crate::layout::{PieceModel, SliceModel};
use crate::path::{Path, PathModel};
use crate::pathmap::{absorb, find_path, path_models, lemma_absorb_no_duplicates};
use crate::torrent::{Piece, pieces_model};

verus! {

/// The paths of the slices, in order.
pub open spec fn slice_paths(slices: Seq<SliceModel>) -> Seq<PathModel> {
    Seq::new(slices.len(), |i: int| slices[i].path)
}

/// Whether the piece holds bytes of the file at `path`.
pub open spec fn piece_touches(piece: PieceModel, path: PathModel) -> bool {
    slice_paths(piece.slices).contains(path)
}

/// Which of the first `n` pieces hold bytes of the file at `path`.
pub open spec fn touching(pieces: Seq<PieceModel>, path: PathModel, n: int) -> Seq<usize>
    decreases n,
{
    if n <= 0 {
        Seq::empty()
    } else {
        let before = touching(pieces, path, n - 1);
        if piece_touches(pieces[n - 1], path) {
            before.push((n - 1) as usize)
        } else {
            before
        }
    }
}

/// The files of which the first `n` pieces hold bytes, each where it first comes.
pub open spec fn touched_paths(pieces: Seq<PieceModel>, n: int) -> Seq<PathModel>
    decreases n,
{
    if n <= 0 {
        Seq::empty()
    } else {
        absorb(touched_paths(pieces, n - 1), slice_paths(pieces[n - 1].slices))
    }
}

/// The first `k` of each of the first `n` orders, without repetitions.
pub open spec fn sampled(orders: Seq<Seq<usize>>, k: int, n: int) -> Seq<usize>
    decreases n,
{
    if n <= 0 {
        Seq::empty()
    } else {
        let order = orders[n - 1];
        let few = if k < order.len() {
            order.take(k)
        } else {
            order
        };
        absorb(sampled(orders, k, n - 1), few)
    }
}

pub open spec fn orders_model(orders: Seq<Vec<usize>>) -> Seq<Seq<usize>> {
    Seq::new(orders.len(), |i: int| orders[i]@)
}

/// Whether the orders are, file by file, the pieces that hold bytes of the
/// file, in some order.
pub open spec fn orders_cover(orders: Seq<Seq<usize>>, pieces: Seq<PieceModel>) -> bool {
    let paths = touched_paths(pieces, pieces.len() as int);
    &&& orders.len() == paths.len()
    &&& forall|i: int|
        0 <= i < orders.len() ==> (#[trigger] orders[i]).to_multiset() == touching(
            pieces,
            paths[i],
            pieces.len() as int,
        ).to_multiset()
}

/// Shuffles the vector in place with `rand::seq::SliceRandom::shuffle` and the
/// generator of `rand::rng`.
///
/// The order that comes out is a matter of chance. What holds of every
/// outcome is that the vector holds the same items as before, each as often.
#[verifier::external_body]
pub(crate) fn shuffle(order: &mut Vec<usize>)
    ensures
        final(order)@.to_multiset() == old(order)@.to_multiset(),
{
    rand::seq::SliceRandom::shuffle(order.as_mut_slice(), &mut rand::rng());
}

pub proof fn lemma_touching_below(pieces: Seq<PieceModel>, path: PathModel, n: int, i: int)
    requires
        0 <= n <= usize::MAX,
        0 <= i < touching(pieces, path, n).len(),
    ensures
        touching(pieces, path, n)[i] < n,
    decreases n,
{
    if n > 0 {
        let before = touching(pieces, path, n - 1);
        if i < before.len() {
            lemma_touching_below(pieces, path, n - 1, i);
        }
    }
}

/// Whether the piece holds bytes of the file at `path`.
pub fn touches(piece: &Piece, path: &Path) -> (r: bool)
    ensures
        r == piece_touches(piece@, path@),
{
    let mut i: usize = 0;
    while i < piece.file_slices.len()
        invariant
            i <= piece.file_slices@.len(),
            forall|t: int| 0 <= t < i ==> slice_paths(piece@.slices)[t] != path@,
        decreases piece.file_slices@.len() - i,
    {
        if piece.file_slices[i].path.same(path) {
            assert(slice_paths(piece@.slices)[i as int] == path@);
            return true;
        }
        i += 1;
    }
    false
}

/// The files of which the pieces hold bytes: see [`touched_paths`].
pub fn touched(pieces: &Vec<Piece>) -> (r: Vec<Path>)
    ensures
        path_models(r@) == touched_paths(pieces_model(pieces@), pieces@.len() as int),
        path_models(r@).no_duplicates(),
{
    let ghost models = pieces_model(pieces@);
    let mut out: Vec<Path> = Vec::new();
    let mut i: usize = 0;
    assert(path_models(out@) =~= Seq::<PathModel>::empty());
    while i < pieces.len()
        invariant
            models == pieces_model(pieces@),
            i <= pieces@.len(),
            path_models(out@) == touched_paths(models, i as int),
            path_models(out@).no_duplicates(),
        decreases pieces@.len() - i,
    {
        let piece = &pieces[i];
        let ghost start = path_models(out@);
        let ghost paths = slice_paths(models[i as int].slices);
        let mut k: usize = 0;
        assert(paths.take(0) =~= Seq::<PathModel>::empty());
        while k < piece.file_slices.len()
            invariant
                paths == slice_paths(piece@.slices),
                k <= piece.file_slices@.len(),
                path_models(out@) == absorb(start, paths.take(k as int)),
            decreases piece.file_slices@.len() - k,
        {
            proof {
                assert(paths.take(k + 1).drop_last() =~= paths.take(k as int));
                assert(paths.take(k + 1).last() == paths[k as int]);
            }
            let ghost before = path_models(out@);
            let path = &piece.file_slices[k].path;
            match find_path(&out, path) {
                Some(at) => {
                    assert(before[at as int] == paths[k as int]);
                },
                None => {
                    out.push(path.clone());
                    assert(path_models(out@) =~= before.push(paths[k as int]));
                },
            }
            k += 1;
        }
        proof {
            assert(paths.take(piece.file_slices@.len() as int) =~= paths);
            lemma_absorb_no_duplicates(start, paths);
        }
        i += 1;
    }
    out
}

/// Which pieces hold bytes of the file at `path`: see [`touching`].
pub fn pieces_touching(pieces: &Vec<Piece>, path: &Path) -> (r: Vec<usize>)
    ensures
        r@ == touching(pieces_model(pieces@), path@, pieces@.len() as int),
{
    let ghost models = pieces_model(pieces@);
    let mut out: Vec<usize> = Vec::new();
    let mut i: usize = 0;
    while i < pieces.len()
        invariant
            models == pieces_model(pieces@),
            i <= pieces@.len(),
            out@ == touching(models, path@, i as int),
        decreases pieces@.len() - i,
    {
        assert(models[i as int] == pieces@[i as int]@);
        if touches(&pieces[i], path) {
            out.push(i);
        }
        i += 1;
    }
    out
}

/// Whether the vector holds the number.
pub fn holds(items: &Vec<usize>, item: usize) -> (r: bool)
    ensures
        r == items@.contains(item),
{
    let mut i: usize = 0;
    while i < items.len()
        invariant
            i <= items@.len(),
            forall|t: int| 0 <= t < i ==> items@[t] != item,
        decreases items@.len() - i,
    {
        if items[i] == item {
            return true;
        }
        i += 1;
    }
    false
}

/// Takes the first `k` pieces of each order and drops the repetitions: see
/// [`sampled`].
pub fn select_sample(orders: &Vec<Vec<usize>>, k: usize) -> (r: Vec<usize>)
    ensures
        r@ == sampled(orders_model(orders@), k as int, orders@.len() as int),
        r@.no_duplicates(),
        forall|x: usize|
            r@.contains(x) ==> exists|i: int|
                0 <= i < orders@.len() && (#[trigger] orders@[i])@.contains(x),
{
    let ghost models = orders_model(orders@);
    let mut out: Vec<usize> = Vec::new();
    let mut i: usize = 0;
    while i < orders.len()
        invariant
            models == orders_model(orders@),
            i <= orders@.len(),
            out@ == sampled(models, k as int, i as int),
            out@.no_duplicates(),
            forall|x: usize|
                out@.contains(x) ==> exists|t: int|
                    0 <= t < i && (#[trigger] orders@[t])@.contains(x),
        decreases orders@.len() - i,
    {
        let order = &orders[i];
        let few = if k < order.len() {
            k
        } else {
            order.len()
        };
        let ghost start = out@;
        let ghost taken = if k < order@.len() {
            order@.take(k as int)
        } else {
            order@
        };
        assert(taken =~= order@.take(few as int));
        let mut j: usize = 0;
        assert(taken.take(0) =~= Seq::<usize>::empty());
        while j < few
            invariant
                few <= order@.len(),
                taken == order@.take(few as int),
                j <= few,
                out@ == absorb(start, taken.take(j as int)),
            decreases few - j,
        {
            proof {
                assert(taken.take(j + 1).drop_last() =~= taken.take(j as int));
                assert(taken.take(j + 1).last() == order@[j as int]);
            }
            if !holds(&out, order[j]) {
                out.push(order[j]);
            }
            j += 1;
        }
        proof {
            assert(taken.take(few as int) =~= taken);
            assert(models[i as int] == order@);
            lemma_absorb_no_duplicates(start, taken);
            assert forall|x: usize| out@.contains(x) implies exists|t: int|
                0 <= t < i + 1 && (#[trigger] orders@[t])@.contains(x) by {
                if start.contains(x) {
                    let t = choose|t: int| 0 <= t < i && (#[trigger] orders@[t])@.contains(x);
                    assert(orders@[t]@.contains(x));
                } else {
                    assert(taken.contains(x));
                    let at = taken.index_of(x);
                    assert(order@[at] == x);
                    assert(orders@[i as int]@.contains(x));
                }
            }
        }
        i += 1;
    }
    out
}

/// Picks, for each file, up to `k` of the pieces that hold bytes of it, by
/// chance, and hands out the pieces picked, each once.
///
/// Which pieces come out depends on chance. Whatever comes out is the sample
/// that [`select_sample`] takes from some shuffling of each file's pieces.
pub fn sample_pieces(pieces: &Vec<Piece>, k: usize) -> (r: Vec<usize>)
    ensures
        exists|orders: Seq<Seq<usize>>|
            orders_cover(orders, pieces_model(pieces@)) && r@ == #[trigger] sampled(
                orders,
                k as int,
                orders.len() as int,
            ),
        r@.no_duplicates(),
        forall|j: int| 0 <= j < r@.len() ==> (#[trigger] r@[j]) < pieces@.len(),
{
    let ghost models = pieces_model(pieces@);
    let n = pieces.len();
    let paths = touched(pieces);
    let mut orders: Vec<Vec<usize>> = Vec::new();
    let mut i: usize = 0;
    while i < paths.len()
        invariant
            models == pieces_model(pieces@),
            n == pieces@.len(),
            path_models(paths@) == touched_paths(models, n as int),
            i <= paths@.len(),
            orders@.len() == i,
            forall|t: int|
                0 <= t < i ==> (#[trigger] orders@[t])@.to_multiset() == touching(
                    models,
                    paths@[t]@,
                    n as int,
                ).to_multiset(),
        decreases paths@.len() - i,
    {
        let mut order = pieces_touching(pieces, &paths[i]);
        shuffle(&mut order);
        orders.push(order);
        i += 1;
    }
    let picked = select_sample(&orders, k);
    proof {
        let all = orders_model(orders@);
        assert(orders_cover(all, models)) by {
            let touched = touched_paths(models, n as int);
            assert(all.len() == touched.len());
            assert forall|t: int| 0 <= t < all.len() implies (#[trigger] all[t]).to_multiset()
                == touching(models, touched[t], n as int).to_multiset() by {
                assert(all[t] == orders@[t]@);
                assert(touched[t] == paths@[t]@);
            }
        }
        assert forall|j: int| 0 <= j < picked@.len() implies (#[trigger] picked@[j]) < n by {
            let x = picked@[j];
            assert(picked@.contains(x));
            let t = choose|t: int| 0 <= t < orders@.len() && (#[trigger] orders@[t])@.contains(x);
            let holders = touching(models, paths@[t]@, n as int);
            orders@[t]@.to_multiset_ensures();
            holders.to_multiset_ensures();
            assert(orders@[t]@.to_multiset().count(x) > 0);
            assert(holders.to_multiset().count(x) > 0);
            assert(holders.contains(x));
            let at = holders.index_of(x);
            lemma_touching_below(models, paths@[t]@, n as int, at);
        }
    }
    picked
}

/// The files of the first `n` failed pieces: every file of which a failed
/// piece holds bytes, each where it first comes.
pub open spec fn failed_paths_of(pieces: Seq<PieceModel>, failed: Seq<usize>, n: int) -> Seq<
    PathModel,
>
    decreases n,
{
    if n <= 0 {
        Seq::empty()
    } else {
        absorb(
            failed_paths_of(pieces, failed, n - 1),
            slice_paths(pieces[failed[n - 1] as int].slices),
        )
    }
}

/// No file fails unless a piece fails; and where a piece fails, every file
/// of which it holds bytes is among the failed.
pub proof fn lemma_failed_paths(pieces: Seq<PieceModel>, failed: Seq<usize>, n: int)
    requires
        0 <= n <= failed.len(),
    ensures
        failed_paths_of(pieces, failed, n).no_duplicates(),
        n == 0 ==> failed_paths_of(pieces, failed, n).len() == 0,
        forall|f: int, s: int|
            0 <= f < n && 0 <= s < pieces[failed[f] as int].slices.len() ==> failed_paths_of(
                pieces,
                failed,
                n,
            ).contains(#[trigger] pieces[failed[f] as int].slices[s].path),
    decreases n,
{
    if n > 0 {
        lemma_failed_paths(pieces, failed, n - 1);
        let before = failed_paths_of(pieces, failed, n - 1);
        let paths = slice_paths(pieces[failed[n - 1] as int].slices);
        lemma_absorb_no_duplicates(before, paths);
        let all = failed_paths_of(pieces, failed, n);
        assert forall|f: int, s: int|
            0 <= f < n && 0 <= s < pieces[failed[f] as int].slices.len() implies all.contains(
            #[trigger] pieces[failed[f] as int].slices[s].path,
        ) by {
            let path = pieces[failed[f] as int].slices[s].path;
            if f < n - 1 {
                assert(before.contains(path));
            } else {
                assert(paths[s] == path);
                assert(paths.contains(path));
            }
        }
    }
}

/// The files whose bytes did not hash as they should, given which pieces
/// failed: every file of which a failed piece holds bytes, and no other.
pub fn failed_paths(pieces: &Vec<Piece>, failed: &Vec<usize>) -> (r: Vec<Path>)
    requires
        forall|f: int| 0 <= f < failed@.len() ==> (#[trigger] failed@[f]) < pieces@.len(),
    ensures
        path_models(r@) == failed_paths_of(pieces_model(pieces@), failed@, failed@.len() as int),
        path_models(r@).no_duplicates(),
        failed@.len() == 0 ==> r@.len() == 0,
        forall|f: int, s: int|
            0 <= f < failed@.len() && 0 <= s < pieces@[failed@[f] as int].file_slices@.len()
                ==> path_models(r@).contains(
                #[trigger] pieces@[failed@[f] as int].file_slices@[s].path@,
            ),
{
    let ghost models = pieces_model(pieces@);
    let mut out: Vec<Path> = Vec::new();
    let mut i: usize = 0;
    assert(path_models(out@) =~= Seq::<PathModel>::empty());
    while i < failed.len()
        invariant
            models == pieces_model(pieces@),
            i <= failed@.len(),
            forall|f: int| 0 <= f < failed@.len() ==> (#[trigger] failed@[f]) < pieces@.len(),
            path_models(out@) == failed_paths_of(models, failed@, i as int),
        decreases failed@.len() - i,
    {
        let piece = &pieces[failed[i]];
        let ghost start = path_models(out@);
        let ghost paths = slice_paths(models[failed@[i as int] as int].slices);
        let mut k: usize = 0;
        assert(paths.take(0) =~= Seq::<PathModel>::empty());
        while k < piece.file_slices.len()
            invariant
                paths == slice_paths(piece@.slices),
                k <= piece.file_slices@.len(),
                path_models(out@) == absorb(start, paths.take(k as int)),
            decreases piece.file_slices@.len() - k,
        {
            proof {
                assert(paths.take(k + 1).drop_last() =~= paths.take(k as int));
                assert(paths.take(k + 1).last() == paths[k as int]);
            }
            let ghost before = path_models(out@);
            let path = &piece.file_slices[k].path;
            match find_path(&out, path) {
                Some(at) => {
                    assert(before[at as int] == paths[k as int]);
                },
                None => {
                    out.push(path.clone());
                    assert(path_models(out@) =~= before.push(paths[k as int]));
                },
            }
            k += 1;
        }
        assert(paths.take(piece.file_slices@.len() as int) =~= paths);
        i += 1;
    }
    proof {
        lemma_failed_paths(models, failed@, failed@.len() as int);
        assert(path_models(out@).len() == out@.len());
        assert forall|f: int, s: int|
            0 <= f < failed@.len() && 0 <= s < pieces@[failed@[f] as int].file_slices@.len() implies path_models(
            out@,
        ).contains(#[trigger] pieces@[failed@[f] as int].file_slices@[s].path@) by {
            let piece = models[failed@[f] as int];
            assert(piece == pieces@[failed@[f] as int]@);
            assert(piece.slices[s].path == pieces@[failed@[f] as int].file_slices@[s].path@);
        }
    }
    out
}

/// The checked pieces that did not pass, in the order in which they were
/// checked: `passed[i]` tells of piece `checked[i]`.
pub open spec fn failed_among(checked: Seq<usize>, passed: Seq<bool>, n: int) -> Seq<usize>
    decreases n,
{
    if n <= 0 {
        Seq::empty()
    } else {
        let before = failed_among(checked, passed, n - 1);
        if passed[n - 1] {
            before
        } else {
            before.push(checked[n - 1])
        }
    }
}

/// The pieces that did not pass: see [`failed_among`].
pub fn failed_pieces(checked: &Vec<usize>, passed: &Vec<bool>) -> (r: Vec<usize>)
    requires
        checked@.len() == passed@.len(),
    ensures
        r@ == failed_among(checked@, passed@, checked@.len() as int),
{
    let mut failed: Vec<usize> = Vec::new();
    let mut i: usize = 0;
    while i < checked.len()
        invariant
            checked@.len() == passed@.len(),
            i <= checked@.len(),
            failed@ == failed_among(checked@, passed@, i as int),
        decreases checked@.len() - i,
    {
        if !passed[i] {
            failed.push(checked[i]);
        }
        i += 1;
    }
    failed
}

/// What failed was checked and did not pass, and whatever was checked and
/// did not pass has failed.
pub proof fn lemma_failed_among(checked: Seq<usize>, passed: Seq<bool>, n: int)
    requires
        0 <= n <= checked.len(),
        checked.len() == passed.len(),
    ensures
        forall|f: int|
            0 <= f < failed_among(checked, passed, n).len() ==> exists|i: int|
                0 <= i < n && !passed[i] && checked[i] == #[trigger] failed_among(
                    checked,
                    passed,
                    n,
                )[f],
        forall|i: int|
            0 <= i < n && !passed[i] ==> failed_among(checked, passed, n).contains(
                #[trigger] checked[i],
            ),
    decreases n,
{
    if n > 0 {
        lemma_failed_among(checked, passed, n - 1);
        let before = failed_among(checked, passed, n - 1);
        let all = failed_among(checked, passed, n);
        assert forall|f: int| 0 <= f < all.len() implies exists|i: int|
            0 <= i < n && !passed[i] && checked[i] == #[trigger] all[f] by {
            if f < before.len() {
                let i = choose|i: int|
                    0 <= i < n - 1 && !passed[i] && checked[i] == #[trigger] before[f];
                assert(!passed[i] && checked[i] == all[f]);
            } else {
                assert(!passed[n - 1] && checked[n - 1] == all[f]);
            }
        }
        assert forall|i: int| 0 <= i < n && !passed[i] implies all.contains(
            #[trigger] checked[i],
        ) by {
            if i < n - 1 {
                let f = before.index_of(checked[i]);
                assert(before.contains(checked[i]));
                assert(all[f] == checked[i]);
            } else {
                assert(all[before.len() as int] == checked[i]);
            }
        }
    }
}

/// Where every checked piece passes no file is named; and where one does not
/// pass, every file of which it holds bytes is named.
pub proof fn lemma_check_names_files(pieces: Seq<PieceModel>, checked: Seq<usize>, passed: Seq<bool>)
    requires
        checked.len() == passed.len(),
    ensures
        (forall|i: int| 0 <= i < passed.len() ==> passed[i]) ==> failed_paths_of(
            pieces,
            failed_among(checked, passed, checked.len() as int),
            failed_among(checked, passed, checked.len() as int).len() as int,
        ).len() == 0,
        forall|i: int, s: int|
            0 <= i < passed.len() && !passed[i] && 0 <= s < pieces[checked[i] as int].slices.len()
                ==> failed_paths_of(
                pieces,
                failed_among(checked, passed, checked.len() as int),
                failed_among(checked, passed, checked.len() as int).len() as int,
            ).contains(#[trigger] pieces[checked[i] as int].slices[s].path),
{
    let failed = failed_among(checked, passed, checked.len() as int);
    lemma_failed_among(checked, passed, checked.len() as int);
    lemma_failed_paths(pieces, failed, failed.len() as int);
    if forall|i: int| 0 <= i < passed.len() ==> passed[i] {
        if failed.len() > 0 {
            let i = choose|i: int|
                0 <= i < checked.len() && !passed[i] && checked[i] == #[trigger] failed[0];
            assert(passed[i]);
        }
    }
    assert forall|i: int, s: int|
        0 <= i < passed.len() && !passed[i] && 0 <= s < pieces[checked[i] as int].slices.len() implies failed_paths_of(
        pieces,
        failed,
        failed.len() as int,
    ).contains(#[trigger] pieces[checked[i] as int].slices[s].path) by {
        assert(failed.contains(checked[i]));
        let f = failed.index_of(checked[i]);
        assert(failed[f] == checked[i]);
        assert(failed_paths_of(pieces, failed, failed.len() as int).contains(
            pieces[failed[f] as int].slices[s].path,
        ));
    }
}

/// Whatever the shuffling, the sample holds for each file the first `k` of
/// the pieces in its order: up to `k` pieces that hold bytes of the file,
/// each once.
pub proof fn lemma_sample_covers(
    orders: Seq<Seq<usize>>,
    pieces: Seq<PieceModel>,
    k: int,
    i: int,
    j: int,
)
    requires
        orders_cover(orders, pieces),
        0 <= i < orders.len(),
        0 <= j < orders[i].len(),
        j < k,
        pieces.len() <= usize::MAX,
    ensures
        sampled(orders, k, orders.len() as int).contains(orders[i][j]),
        orders[i][j] < pieces.len(),
        piece_touches(
            pieces[orders[i][j] as int],
            touched_paths(pieces, pieces.len() as int)[i],
        ),
        orders[i].no_duplicates(),
{
    let path = touched_paths(pieces, pieces.len() as int)[i];
    let holders = touching(pieces, path, pieces.len() as int);
    let x = orders[i][j];
    orders[i].to_multiset_ensures();
    holders.to_multiset_ensures();
    assert(orders[i].contains(x));
    assert(orders[i].to_multiset().count(x) > 0);
    assert(holders.to_multiset().count(x) > 0);
    assert(holders.contains(x));
    let at = holders.index_of(x);
    lemma_touching_below(pieces, path, pieces.len() as int, at);
    lemma_touching_touches(pieces, path, pieces.len() as int, at);
    lemma_touching_no_duplicates(pieces, path, pieces.len() as int);
    holders.lemma_multiset_has_no_duplicates();
    orders[i].lemma_multiset_has_no_duplicates_conv();
    lemma_sampled_holds(orders, k, orders.len() as int, i, j);
}

pub proof fn lemma_touching_touches(pieces: Seq<PieceModel>, path: PathModel, n: int, i: int)
    requires
        0 <= n <= usize::MAX,
        0 <= i < touching(pieces, path, n).len(),
    ensures
        piece_touches(pieces[touching(pieces, path, n)[i] as int], path),
    decreases n,
{
    if n > 0 {
        let before = touching(pieces, path, n - 1);
        if i < before.len() {
            lemma_touching_touches(pieces, path, n - 1, i);
        }
    }
}

pub proof fn lemma_touching_no_duplicates(pieces: Seq<PieceModel>, path: PathModel, n: int)
    requires
        0 <= n <= usize::MAX,
    ensures
        touching(pieces, path, n).no_duplicates(),
    decreases n,
{
    if n > 0 {
        lemma_touching_no_duplicates(pieces, path, n - 1);
        let before = touching(pieces, path, n - 1);
        assert forall|t: int| 0 <= t < before.len() implies before[t] < n - 1 by {
            lemma_touching_below(pieces, path, n - 1, t);
        }
    }
}

pub proof fn lemma_sampled_holds(orders: Seq<Seq<usize>>, k: int, n: int, i: int, j: int)
    requires
        0 <= i < n <= orders.len(),
        0 <= j < orders[i].len(),
        j < k,
    ensures
        sampled(orders, k, n).contains(orders[i][j]),
    decreases n,
{
    let order = orders[n - 1];
    let few = if k < order.len() {
        order.take(k)
    } else {
        order
    };
    let before = sampled(orders, k, n - 1);
    lemma_absorb_holds(before, few);
    if i < n - 1 {
        lemma_sampled_holds(orders, k, n - 1, i, j);
    } else {
        assert(few[j] == orders[i][j]);
        assert(few.contains(orders[i][j]));
    }
}

/// What was held stays, and what is added is held.
pub proof fn lemma_absorb_holds<T>(seen: Seq<T>, more: Seq<T>)
    ensures
        forall|p: T| seen.contains(p) ==> #[trigger] absorb(seen, more).contains(p),
        forall|p: T| more.contains(p) ==> #[trigger] absorb(seen, more).contains(p),
    decreases more.len(),
{
    if more.len() > 0 {
        let before = absorb(seen, more.drop_last());
        lemma_absorb_holds(seen, more.drop_last());
        let all = absorb(seen, more);
        assert forall|p: T| before.contains(p) implies all.contains(p) by {
            let i = before.index_of(p);
            assert(all[i] == p);
        }
        assert forall|p: T| more.contains(p) implies #[trigger] all.contains(p) by {
            let i = more.index_of(p);
            if i < more.len() - 1 {
                assert(more.drop_last()[i] == p);
                assert(before.contains(p));
            } else if !before.contains(p) {
                assert(all[before.len() as int] == p);
            }
        }
    }
}

} // verus!
