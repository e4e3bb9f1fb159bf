//! How the pieces of a torrent lie across its files.
//!
//! The files of a torrent, in their declared order, form one stream of bytes.
//! Piece `j` is the stretch of `piece_length` bytes that starts at
//! `j * piece_length`, cut short where the stream ends. A slice is what one
//! file shares with one piece.

use vstd::prelude::*;
use crate::path::PathModel;

verus! {

/// A file of a torrent: its length and where it lies.
pub struct FileModel {
    pub length: nat,
    pub path: PathModel,
}

/// A run of bytes in one file.
pub struct SliceModel {
    pub path: PathModel,
    pub offset: nat,
    pub length: nat,
}

/// A piece: its digest and the slices that make it up, in order.
pub struct PieceModel {
    pub hash: Seq<u8>,
    pub slices: Seq<SliceModel>,
}

pub open spec fn min_int(a: int, b: int) -> int {
    if a <= b {
        a
    } else {
        b
    }
}

pub open spec fn max_int(a: int, b: int) -> int {
    if a >= b {
        a
    } else {
        b
    }
}

/// Where file `i` starts in the stream: the lengths of the files before it.
pub open spec fn file_start(files: Seq<FileModel>, i: int) -> int
    decreases i,
{
    if i <= 0 {
        0
    } else {
        file_start(files, i - 1) + files[i - 1].length
    }
}

/// The length of the whole stream.
pub open spec fn total_length(files: Seq<FileModel>) -> int {
    file_start(files, files.len() as int)
}

/// What the first `k` files share with the bytes `lo..hi` of the stream: one
/// slice for each file that holds any of them, in the order of the files.
pub open spec fn range_slices(files: Seq<FileModel>, k: int, lo: int, hi: int) -> Seq<SliceModel>
    decreases k,
{
    if k <= 0 {
        Seq::empty()
    } else {
        let before = range_slices(files, k - 1, lo, hi);
        let start = file_start(files, k - 1);
        let s = max_int(lo, start);
        let e = min_int(hi, start + files[k - 1].length);
        if s < e {
            before.push(
                SliceModel {
                    path: files[k - 1].path,
                    offset: (s - start) as nat,
                    length: (e - s) as nat,
                },
            )
        } else {
            before
        }
    }
}

/// The slices of piece `j`.
pub open spec fn piece_slices(files: Seq<FileModel>, piece_length: int, j: int) -> Seq<SliceModel> {
    range_slices(
        files,
        files.len() as int,
        j * piece_length,
        min_int((j + 1) * piece_length, total_length(files)),
    )
}

/// Whether `count` pieces of `piece_length` bytes cover the stream exactly:
/// the last piece is not empty and nothing is left after it.
pub open spec fn piece_count_fits(files: Seq<FileModel>, piece_length: int, count: int) -> bool {
    &&& piece_length > 0
    &&& count > 0
    &&& (count - 1) * piece_length < total_length(files)
    &&& total_length(files) <= count * piece_length
}

/// The pieces that `hashes` stand for.
pub open spec fn layout(files: Seq<FileModel>, piece_length: int, hashes: Seq<Seq<u8>>) -> Seq<
    PieceModel,
> {
    Seq::new(
        hashes.len(),
        |j: int| PieceModel { hash: hashes[j], slices: piece_slices(files, piece_length, j) },
    )
}

/// The bytes that the slices hold together.
pub open spec fn slices_length(slices: Seq<SliceModel>) -> int
    decreases slices.len(),
{
    if slices.len() == 0 {
        0
    } else {
        slices_length(slices.drop_last()) + slices.last().length
    }
}

/// The bytes that the pieces hold together.
pub open spec fn pieces_length(pieces: Seq<PieceModel>) -> int
    decreases pieces.len(),
{
    if pieces.len() == 0 {
        0
    } else {
        pieces_length(pieces.drop_last()) + slices_length(pieces.last().slices)
    }
}

pub proof fn lemma_file_start_monotonic(files: Seq<FileModel>, i: int, j: int)
    requires
        i <= j,
    ensures
        file_start(files, i) <= file_start(files, j),
        0 <= file_start(files, i),
    decreases j - i, j,
{
    if i < j {
        lemma_file_start_monotonic(files, i, j - 1);
    } else if i > 0 {
        lemma_file_start_monotonic(files, i - 1, j - 1);
    }
}

/// Files that end at or before `lo` share nothing with `lo..hi`.
pub proof fn lemma_range_slices_before(files: Seq<FileModel>, k: int, lo: int, hi: int)
    requires
        file_start(files, k) <= lo,
    ensures
        range_slices(files, k, lo, hi) == Seq::<SliceModel>::empty(),
    decreases k,
{
    if k > 0 {
        lemma_range_slices_before(files, k - 1, lo, hi);
    }
}

/// Files that start at or after `hi` share nothing with `lo..hi`.
pub proof fn lemma_range_slices_beyond(files: Seq<FileModel>, k0: int, k: int, lo: int, hi: int)
    requires
        0 <= k0 <= k,
        file_start(files, k0) >= hi,
    ensures
        range_slices(files, k, lo, hi) == range_slices(files, k0, lo, hi),
    decreases k - k0,
{
    if k0 < k {
        lemma_range_slices_beyond(files, k0, k - 1, lo, hi);
        lemma_file_start_monotonic(files, k0, k - 1);
    }
}

/// The first `k` files hold of `lo..hi` what lies before the start of file `k`.
pub proof fn lemma_range_slices_length(files: Seq<FileModel>, k: int, lo: int, hi: int)
    requires
        0 <= lo <= hi,
        0 <= k,
    ensures
        slices_length(range_slices(files, k, lo, hi)) == min_int(hi, file_start(files, k))
            - min_int(lo, file_start(files, k)),
    decreases k,
{
    lemma_file_start_monotonic(files, 0, k);
    if k > 0 {
        lemma_range_slices_length(files, k - 1, lo, hi);
        lemma_file_start_monotonic(files, 0, k - 1);
        let before = range_slices(files, k - 1, lo, hi);
        let all = range_slices(files, k, lo, hi);
        if all != before {
            assert(all.drop_last() =~= before);
        }
    }
}

/// Every slice of a range holds at least one byte.
pub proof fn lemma_range_slices_not_empty(files: Seq<FileModel>, k: int, lo: int, hi: int, i: int)
    requires
        0 <= i < range_slices(files, k, lo, hi).len(),
    ensures
        range_slices(files, k, lo, hi)[i].length > 0,
    decreases k,
{
    if k > 0 {
        let before = range_slices(files, k - 1, lo, hi);
        if i < before.len() {
            lemma_range_slices_not_empty(files, k - 1, lo, hi, i);
        }
    }
}

/// A piece holds `piece_length` bytes, but for the last, which holds what is
/// left of the stream.
pub proof fn lemma_piece_length(files: Seq<FileModel>, piece_length: int, count: int, j: int)
    requires
        piece_count_fits(files, piece_length, count),
        0 <= j < count,
    ensures
        j < count - 1 ==> slices_length(piece_slices(files, piece_length, j)) == piece_length,
        j == count - 1 ==> slices_length(piece_slices(files, piece_length, j)) == total_length(
            files,
        ) - j * piece_length,
        0 < slices_length(piece_slices(files, piece_length, j)) <= piece_length,
{
    let total = total_length(files);
    assert((j + 1) * piece_length == j * piece_length + piece_length) by (nonlinear_arith);
    assert(0 <= j * piece_length) by (nonlinear_arith)
        requires
            0 <= j,
            0 < piece_length,
    ;
    assert(j < count - 1 ==> (j + 1) * piece_length <= (count - 1) * piece_length)
        by (nonlinear_arith)
        requires
            0 < piece_length,
    ;
    lemma_range_slices_length(
        files,
        files.len() as int,
        j * piece_length,
        min_int((j + 1) * piece_length, total),
    );
}

/// The first `j` pieces of a layout hold the first `j * piece_length` bytes
/// of the stream, or all of it.
pub proof fn lemma_pieces_length_prefix(
    files: Seq<FileModel>,
    piece_length: int,
    hashes: Seq<Seq<u8>>,
    j: int,
)
    requires
        piece_count_fits(files, piece_length, hashes.len() as int),
        0 <= j <= hashes.len(),
    ensures
        pieces_length(layout(files, piece_length, hashes).take(j)) == min_int(
            j * piece_length,
            total_length(files),
        ),
    decreases j,
{
    let all = layout(files, piece_length, hashes);
    if j == 0 {
        lemma_file_start_monotonic(files, 0, files.len() as int);
    } else {
        lemma_pieces_length_prefix(files, piece_length, hashes, j - 1);
        lemma_piece_length(files, piece_length, hashes.len() as int, j - 1);
        assert(all.take(j).drop_last() =~= all.take(j - 1));
        assert(all.take(j).last() == all[j - 1]);
        assert(j * piece_length == (j - 1) * piece_length + piece_length) by (nonlinear_arith);
        assert(j < hashes.len() ==> j * piece_length <= (hashes.len() - 1) * piece_length)
            by (nonlinear_arith)
            requires
                0 < piece_length,
        ;
    }
}

/// The pieces of a layout hold exactly the bytes of the files, and every piece
/// before the last holds `piece_length` of them.
pub proof fn lemma_layout_covers_files(
    files: Seq<FileModel>,
    piece_length: int,
    hashes: Seq<Seq<u8>>,
)
    requires
        piece_count_fits(files, piece_length, hashes.len() as int),
    ensures
        pieces_length(layout(files, piece_length, hashes)) == total_length(files),
        forall|j: int|
            0 <= j < hashes.len() - 1 ==> slices_length(
                #[trigger] layout(files, piece_length, hashes)[j].slices,
            ) == piece_length,
        forall|j: int, i: int|
            0 <= j < hashes.len() && 0 <= i < layout(files, piece_length, hashes)[j].slices.len()
                ==> (#[trigger] layout(files, piece_length, hashes)[j].slices[i]).length > 0,
{
    let all = layout(files, piece_length, hashes);
    lemma_pieces_length_prefix(files, piece_length, hashes, hashes.len() as int);
    assert(all.take(hashes.len() as int) =~= all);
    assert forall|j: int| 0 <= j < hashes.len() - 1 implies slices_length(#[trigger] all[j].slices)
        == piece_length by {
        lemma_piece_length(files, piece_length, hashes.len() as int, j);
    }
    assert forall|j: int, i: int| 0 <= j < hashes.len() && 0 <= i < all[j].slices.len() implies (
    #[trigger] all[j].slices[i]).length > 0 by {
        lemma_range_slices_not_empty(
            files,
            files.len() as int,
            j * piece_length,
            min_int((j + 1) * piece_length, total_length(files)),
            i,
        );
    }
}

} // verus!
