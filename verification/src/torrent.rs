//! Torrent metainfo: the files a torrent declares and the pieces that cover them.

use vstd::prelude::*;
use crate::layout::{
    FileModel, SliceModel, PieceModel, file_start, total_length, range_slices, piece_slices,
    piece_count_fits, layout, min_int, max_int, pieces_length, slices_length,
    lemma_file_start_monotonic, lemma_layout_covers_files, lemma_piece_length,
    lemma_range_slices_before, lemma_range_slices_beyond,
};
use vstd::utf8::encode_utf8;
use crate::announce::{url_host, host_is_usable, parse_host, usable_host};
use crate::path::{Path, PathModel, parse_path, path_join};

verus! {

/// The number of bytes in a SHA-1 digest.
pub const DIGEST_LENGTH: usize = 20;

/// A SHA-1 digest.
#[derive(Clone, Copy, Debug, PartialEq, Eq, Hash)]
pub struct Digest([u8; 20]);

impl View for Digest {
    type V = Seq<u8>;

    closed spec fn view(&self) -> Seq<u8> {
        self.0@
    }
}

impl Digest {
    pub fn new(bytes: [u8; 20]) -> (r: Digest)
        ensures
            r@ == bytes@,
    {
        Digest(bytes)
    }

    pub fn bytes(&self) -> (r: [u8; 20])
        ensures
            r@ == self@,
    {
        self.0
    }
}

/// A file that a torrent declares.
#[derive(Clone, Debug, PartialEq, Eq)]
pub struct File {
    pub length: u64,
    pub path: Path,
}

impl View for File {
    type V = FileModel;

    open spec fn view(&self) -> FileModel {
        FileModel { length: self.length as nat, path: self.path@ }
    }
}

/// A run of bytes in one file of a torrent.
#[derive(Clone, Debug, PartialEq, Eq, Hash)]
pub struct FileSlice {
    pub path: Path,
    pub offset: u64,
    pub length: u64,
}

impl View for FileSlice {
    type V = SliceModel;

    open spec fn view(&self) -> SliceModel {
        SliceModel { path: self.path@, offset: self.offset as nat, length: self.length as nat }
    }
}

/// A piece of a torrent: the digest of its bytes and where they lie.
#[derive(Clone, Debug, PartialEq, Eq, Hash)]
pub struct Piece {
    pub hash: Digest,
    pub file_slices: Vec<FileSlice>,
}

pub open spec fn files_model(files: Seq<File>) -> Seq<FileModel> {
    Seq::new(files.len(), |i: int| files[i]@)
}

pub open spec fn slices_model(slices: Seq<FileSlice>) -> Seq<SliceModel> {
    Seq::new(slices.len(), |i: int| slices[i]@)
}

pub open spec fn digests_model(hashes: Seq<Digest>) -> Seq<Seq<u8>> {
    Seq::new(hashes.len(), |i: int| hashes[i]@)
}

impl View for Piece {
    type V = PieceModel;

    open spec fn view(&self) -> PieceModel {
        PieceModel { hash: self.hash@, slices: slices_model(self.file_slices@) }
    }
}

pub open spec fn pieces_model(pieces: Seq<Piece>) -> Seq<PieceModel> {
    Seq::new(pieces.len(), |i: int| pieces[i]@)
}

/// Why a layout could not be made.
#[derive(Clone, Copy, Debug, PartialEq, Eq)]
pub enum LayoutError {
    /// The digests and the files do not cover the same bytes.
    Mismatch,
}

/// The length of all files together.
pub fn total_file_length(files: &Vec<File>) -> (total: u128)
    ensures
        total == total_length(files_model(files@)),
{
    let mut total: u128 = 0;
    let mut i: usize = 0;
    while i < files.len()
        invariant
            i <= files@.len(),
            total == file_start(files_model(files@), i as int),
            total <= i * 0xffff_ffff_ffff_ffff,
        decreases files@.len() - i,
    {
        total = total + files[i].length as u128;
        i += 1;
    }
    total
}

/// Walks the files once and lays the pieces across them, one for each digest.
///
/// The layout exists where the digests cover the files exactly: a piece
/// length of zero, no digest, digests left over when the files are used up
/// and bytes left over when the digests are used up are all refused.
pub fn lay_out_pieces(files: &Vec<File>, piece_length: u64, hashes: &Vec<Digest>) -> (r: Result<
    Vec<Piece>,
    LayoutError,
>)
    ensures
        r is Ok <==> piece_count_fits(
            files_model(files@),
            piece_length as int,
            hashes@.len() as int,
        ),
        r matches Ok(pieces) ==> pieces_model(pieces@) == layout(
            files_model(files@),
            piece_length as int,
            digests_model(hashes@),
        ),
{
    let ghost fm = files_model(files@);
    let ghost total = total_length(fm);
    let ghost p = piece_length as int;
    let n = files.len();
    let count = hashes.len();
    if piece_length == 0 || count == 0 {
        return Err(LayoutError::Mismatch);
    }
    let mut remaining: u128 = total_file_length(files);
    let mut fi: usize = 0;
    let mut file_remaining: u64 = if n > 0 {
        files[0].length
    } else {
        0
    };
    let mut pieces: Vec<Piece> = Vec::new();
    let mut j: usize = 0;
    proof {
        lemma_file_start_monotonic(fm, 0, n as int);
        assert(0 * p == 0);
    }
    while j < count
        invariant
            fm == files_model(files@),
            total == total_length(fm),
            p == piece_length as int,
            p > 0,
            n == files@.len(),
            count == hashes@.len(),
            j <= count,
            fi <= n,
            remaining <= total,
            total - remaining == min_int(j * p, total),
            j > 0 ==> (j - 1) * p < total,
            file_start(fm, fi as int) <= total - remaining,
            fi < n ==> total - remaining + file_remaining == file_start(fm, fi as int)
                + fm[fi as int].length,
            fi == n ==> remaining == 0 && file_remaining == 0,
            pieces@.len() == j,
            forall|t: int|
                0 <= t < j ==> (#[trigger] pieces@[t])@ == (PieceModel {
                    hash: hashes@[t]@,
                    slices: piece_slices(fm, p, t),
                }),
        decreases count - j,
    {
        if remaining == 0 {
            proof {
                assert(j * p >= total);
                assert((count - 1) * p >= j * p) by (nonlinear_arith)
                    requires
                        count - 1 >= j,
                        p > 0,
                ;
            }
            return Err(LayoutError::Mismatch);
        }
        let mut piece_remaining: u64 = if remaining < piece_length as u128 {
            remaining as u64
        } else {
            piece_length
        };
        let ghost lo = total - remaining;
        let ghost hi = lo + piece_remaining;
        proof {
            assert((j + 1) * p == j * p + p) by (nonlinear_arith);
            assert(lo == j * p);
            assert(hi == min_int((j + 1) * p, total));
            lemma_range_slices_before(fm, fi as int, lo, hi);
        }
        let mut slices: Vec<FileSlice> = Vec::new();
        assert(slices_model(slices@) =~= range_slices(fm, fi as int, lo, hi));
        while piece_remaining > 0
            invariant
                fm == files_model(files@),
                total == total_length(fm),
                n == files@.len(),
                fi <= n,
                remaining <= total,
                lo <= total - remaining,
                total - remaining + piece_remaining == hi,
                hi <= total,
                file_start(fm, fi as int) <= total - remaining,
                fi < n ==> total - remaining + file_remaining == file_start(fm, fi as int)
                    + fm[fi as int].length,
                fi == n ==> remaining == 0 && file_remaining == 0,
                piece_remaining > 0 ==> slices_model(slices@) == range_slices(
                    fm,
                    fi as int,
                    lo,
                    hi,
                ) && total - remaining == max_int(lo, file_start(fm, fi as int)),
                piece_remaining == 0 ==> slices_model(slices@) == range_slices(
                    fm,
                    n as int,
                    lo,
                    hi,
                ),
            decreases (n - fi) + piece_remaining,
        {
            assert(fi < n);
            if file_remaining == 0 {
                fi += 1;
                file_remaining = if fi < n {
                    files[fi].length
                } else {
                    0
                };
                proof {
                    if fi == n {
                        assert(file_start(fm, n as int) == total);
                    }
                }
            } else {
                let next: u64 = if file_remaining < piece_remaining {
                    file_remaining
                } else {
                    piece_remaining
                };
                let ghost before = slices_model(slices@);
                let slice = FileSlice {
                    path: files[fi].path.clone(),
                    offset: files[fi].length - file_remaining,
                    length: next,
                };
                slices.push(slice);
                assert(slices_model(slices@) =~= before.push(slice@));
                assert(slices_model(slices@) == range_slices(fm, fi + 1, lo, hi));
                file_remaining -= next;
                piece_remaining -= next;
                remaining -= next as u128;
                if file_remaining == 0 {
                    fi += 1;
                    file_remaining = if fi < n {
                        files[fi].length
                    } else {
                        0
                    };
                    proof {
                        if fi == n {
                            assert(file_start(fm, n as int) == total);
                        }
                        if piece_remaining == 0 {
                            lemma_range_slices_beyond(fm, fi as int, n as int, lo, hi);
                        }
                    }
                } else {
                    proof {
                        lemma_range_slices_beyond(fm, fi + 1, n as int, lo, hi);
                    }
                }
            }
        }
        let piece = Piece { hash: hashes[j], file_slices: slices };
        pieces.push(piece);
        j += 1;
    }
    if remaining > 0 {
        return Err(LayoutError::Mismatch);
    }
    assert(pieces_model(pieces@) =~= layout(fm, p, digests_model(hashes@)));
    Ok(pieces)
}

/// The metainfo of a torrent as its file spells it, before anything is checked.
#[derive(Clone, Debug, PartialEq, Eq)]
pub struct RawMetainfo {
    pub announce: String,
    pub info: RawInfo,
}

/// The `info` dictionary as written.
#[derive(Clone, Debug, PartialEq, Eq)]
pub struct RawInfo {
    pub name: String,
    pub files: Option<Vec<RawFileEntry>>,
    pub length: Option<u64>,
    pub piece_length: u64,
    pub pieces: Vec<u8>,
}

/// One entry of the `files` list as written.
#[derive(Clone, Debug, PartialEq, Eq)]
pub struct RawFileEntry {
    pub length: u64,
    pub path: Vec<String>,
}

/// What a torrent describes.
#[derive(Debug)]
pub struct Info {
    pub files: Vec<File>,
    pub is_single_file: bool,
    pub name: String,
    pub piece_length: u64,
    pub pieces: Vec<Piece>,
}

pub struct InfoModel {
    pub files: Seq<FileModel>,
    pub is_single_file: bool,
    pub name: Seq<char>,
    pub piece_length: nat,
    pub pieces: Seq<PieceModel>,
}

impl View for Info {
    type V = InfoModel;

    open spec fn view(&self) -> InfoModel {
        InfoModel {
            files: files_model(self.files@),
            is_single_file: self.is_single_file,
            name: self.name@,
            piece_length: self.piece_length as nat,
            pieces: pieces_model(self.pieces@),
        }
    }
}

/// A torrent: where it announces itself and what it describes.
#[derive(Debug)]
pub struct Torrent {
    pub announce: String,
    pub info: Info,
}

pub struct TorrentModel {
    pub announce: Seq<char>,
    pub info: InfoModel,
}

impl View for Torrent {
    type V = TorrentModel;

    open spec fn view(&self) -> TorrentModel {
        TorrentModel { announce: self.announce@, info: self.info@ }
    }
}

/// Why metainfo is refused.
#[derive(Clone, Copy, Debug, PartialEq, Eq)]
pub enum DecodeError {
    /// The announce URL cannot be parsed, or names no host or an empty one.
    InvalidAnnounce,
    /// The name is empty.
    EmptyName,
    /// Both `length` and `files` are set, or neither is.
    LengthXorFiles,
    /// `pieces` is empty, or its length is no multiple of twenty.
    InvalidPieces,
    /// Digests are left when the files are used up, or bytes when the digests are.
    LayoutMismatch,
}

/// The digests written one after another in `bytes`.
pub open spec fn digest_chunks(bytes: Seq<u8>) -> Seq<Seq<u8>> {
    Seq::new((bytes.len() / 20) as nat, |i: int| bytes.subrange(20 * i, 20 * i + 20))
}

/// The pieces of an info dictionary hold the digests of its stream, cut at
/// every `piece_length` bytes.
pub open spec fn info_wf(info: InfoModel) -> bool {
    &&& piece_count_fits(info.files, info.piece_length as int, info.pieces.len() as int)
    &&& forall|j: int|
        0 <= j < info.pieces.len() ==> (#[trigger] info.pieces[j]).slices == piece_slices(
            info.files,
            info.piece_length as int,
            j,
        )
    &&& forall|j: int| 0 <= j < info.pieces.len() ==> (#[trigger] info.pieces[j]).hash.len() == 20
}

/// The path that the components of a declared file spell, one read from the
/// other.
pub open spec fn joined_parts(parts: Seq<String>) -> PathModel
    decreases parts.len(),
{
    if parts.len() == 0 {
        PathModel::empty()
    } else {
        path_join(joined_parts(parts.drop_last()), parse_path(encode_utf8(parts.last()@)))
    }
}

/// The files that the dictionary declares, each below the torrent's name. A
/// dictionary with a `length` declares one file, which lies at the name itself.
pub open spec fn declared_files(info: RawInfo) -> Seq<FileModel> {
    let root = parse_path(encode_utf8(info.name@));
    match (info.files, info.length) {
        (Some(files), None) => Seq::new(
            files@.len(),
            |i: int|
                FileModel {
                    length: files@[i].length as nat,
                    path: path_join(root, joined_parts(files@[i].path@)),
                },
        ),
        (None, Some(length)) => seq![FileModel { length: length as nat, path: root }],
        _ => Seq::empty(),
    }
}

/// The first reason, if any, to refuse the `info` dictionary: its name is
/// empty; it sets both `length` and `files`, or neither; its digests are
/// empty or cut short; the digests do not cover the files exactly.
pub open spec fn info_failure(info: RawInfo) -> Option<DecodeError> {
    if info.name@.len() == 0 {
        Some(DecodeError::EmptyName)
    } else if (info.files is Some) == (info.length is Some) {
        Some(DecodeError::LengthXorFiles)
    } else if info.pieces@.len() == 0 || info.pieces@.len() % 20 != 0 {
        Some(DecodeError::InvalidPieces)
    } else if !piece_count_fits(
        declared_files(info),
        info.piece_length as int,
        info.pieces@.len() as int / 20,
    ) {
        Some(DecodeError::LayoutMismatch)
    } else {
        None
    }
}

/// What an accepted `info` dictionary describes: its files, and a piece for
/// each digest.
pub open spec fn decoded_info(info: RawInfo) -> InfoModel {
    InfoModel {
        files: declared_files(info),
        is_single_file: info.length is Some,
        name: info.name@,
        piece_length: info.piece_length as nat,
        pieces: layout(declared_files(info), info.piece_length as int, digest_chunks(info.pieces@)),
    }
}

/// The first reason, if any, to refuse the metainfo, given the host of its
/// announce URL: the URL names no host that can be used, or the `info`
/// dictionary is refused.
pub open spec fn decode_failure(raw: RawMetainfo, host: Option<Seq<char>>) -> Option<DecodeError> {
    if !host_is_usable(host) {
        Some(DecodeError::InvalidAnnounce)
    } else {
        info_failure(raw.info)
    }
}

/// The torrent that accepted metainfo stands for.
pub open spec fn decoded(raw: RawMetainfo) -> TorrentModel {
    TorrentModel { announce: raw.announce@, info: decoded_info(raw.info) }
}

/// Cuts `bytes` into digests. There are none to cut where `bytes` is empty or
/// its length is no multiple of twenty.
pub fn split_digests(bytes: &[u8]) -> (r: Option<Vec<Digest>>)
    ensures
        r is Some <==> bytes@.len() > 0 && bytes@.len() % 20 == 0,
        r matches Some(hashes) ==> digests_model(hashes@) == digest_chunks(bytes@),
{
    let n = bytes.len();
    if n == 0 || n % 20 != 0 {
        return None;
    }
    let count = n / 20;
    let mut hashes: Vec<Digest> = Vec::new();
    let mut i: usize = 0;
    while i < count
        invariant
            n == bytes@.len(),
            count == n / 20,
            n % 20 == 0,
            i <= count,
            hashes@.len() == i,
            forall|t: int| 0 <= t < i ==> (#[trigger] hashes@[t])@ == bytes@.subrange(20 * t, 20 * t + 20),
        decreases count - i,
    {
        let mut chunk: [u8; 20] = [0u8; 20];
        let mut k: usize = 0;
        while k < 20
            invariant
                n == bytes@.len(),
                count == n / 20,
                n % 20 == 0,
                i < count,
                k <= 20,
                forall|t: int| 0 <= t < k ==> chunk@[t] == bytes@[20 * i + t],
            decreases 20 - k,
        {
            chunk[k] = bytes[20 * i + k];
            k += 1;
        }
        assert(chunk@ =~= bytes@.subrange(20 * i, 20 * i + 20));
        hashes.push(Digest::new(chunk));
        i += 1;
    }
    assert(digests_model(hashes@) =~= digest_chunks(bytes@));
    Some(hashes)
}

/// The path that `parts` spell: see [`joined_parts`].
pub fn deserialize_path_vec(parts: &Vec<String>) -> (r: Path)
    ensures
        r@ == joined_parts(parts@),
{
    let mut acc = Path::empty();
    let mut i: usize = 0;
    assert(parts@.take(0) =~= Seq::<String>::empty());
    while i < parts.len()
        invariant
            i <= parts@.len(),
            acc@ == joined_parts(parts@.take(i as int)),
        decreases parts@.len() - i,
    {
        proof {
            assert(parts@.take(i + 1).drop_last() =~= parts@.take(i as int));
            assert(parts@.take(i + 1).last() == parts@[i as int]);
        }
        acc = acc.join_bytes(parts[i].as_str().as_bytes());
        i += 1;
    }
    assert(parts@.take(parts@.len() as int) =~= parts@);
    acc
}

impl RawInfo {
    /// The files that the dictionary declares: see [`declared_files`].
    pub fn files(&self) -> (r: Vec<File>)
        ensures
            files_model(r@) == declared_files(*self),
    {
        let root = Path::new(self.name.as_str());
        match (&self.files, &self.length) {
            (Some(entries), None) => {
                let mut files: Vec<File> = Vec::new();
                let mut i: usize = 0;
                while i < entries.len()
                    invariant
                        i <= entries@.len(),
                        files@.len() == i,
                        root@ == parse_path(encode_utf8(self.name@)),
                        forall|t: int|
                            0 <= t < i ==> (#[trigger] files@[t])@ == (FileModel {
                                length: entries@[t].length as nat,
                                path: path_join(root@, joined_parts(entries@[t].path@)),
                            }),
                    decreases entries@.len() - i,
                {
                    let below = deserialize_path_vec(&entries[i].path);
                    files.push(File { length: entries[i].length, path: root.join(&below) });
                    i += 1;
                }
                assert(files_model(files@) =~= declared_files(*self));
                files
            },
            (None, Some(length)) => {
                let mut files: Vec<File> = Vec::new();
                files.push(File { length: *length, path: root });
                assert(files_model(files@) =~= declared_files(*self));
                files
            },
            _ => {
                let files: Vec<File> = Vec::new();
                assert(files_model(files@) =~= declared_files(*self));
                files
            },
        }
    }
}

impl Torrent {
    /// Checks metainfo and lays out its pieces.
    ///
    /// The metainfo is refused for the first of these that holds: its announce
    /// URL names no usable host; its name is empty; it sets both `length` and
    /// `files` or neither; its digests are empty or cut short; the digests do
    /// not cover the files exactly. Otherwise the torrent is the one that
    /// [`decoded`] describes.
    pub fn from_raw(raw: RawMetainfo) -> (r: Result<Torrent, DecodeError>)
        ensures
            match r {
                Ok(torrent) => decode_failure(raw, url_host(raw.announce@)) is None && torrent@
                    == decoded(raw),
                Err(e) => decode_failure(raw, url_host(raw.announce@)) == Some(e),
            },
            r matches Ok(torrent) ==> info_wf(torrent@.info),
    {
        let host = parse_host(raw.announce.as_str());
        Torrent::from_raw_with_host(raw, host)
    }

    /// Checks metainfo and lays out its pieces, given what the announce URL
    /// names as its host.
    pub fn from_raw_with_host(raw: RawMetainfo, host: Option<String>) -> (r: Result<
        Torrent,
        DecodeError,
    >)
        ensures
            match r {
                Ok(torrent) => decode_failure(raw, crate::torrent::text_model(host)) is None
                    && torrent@ == decoded(raw),
                Err(e) => decode_failure(raw, crate::torrent::text_model(host)) == Some(e),
            },
            r matches Ok(torrent) ==> info_wf(torrent@.info),
    {
        if usable_host(host).is_none() {
            return Err(DecodeError::InvalidAnnounce);
        }
        match deserialize_info(raw.info) {
            Ok(info) => Ok(Torrent { announce: raw.announce, info }),
            Err(e) => Err(e),
        }
    }
}

/// Checks an `info` dictionary and lays out its pieces across its files.
///
/// The dictionary is refused for the first reason that [`info_failure`]
/// finds. Otherwise it describes what [`decoded_info`] says: the declared
/// files below the name, and for each digest the piece that it stands for.
pub fn deserialize_info(raw: RawInfo) -> (r: Result<Info, DecodeError>)
    ensures
        match r {
            Ok(info) => info_failure(raw) is None && info@ == decoded_info(raw),
            Err(e) => info_failure(raw) == Some(e),
        },
        r matches Ok(info) ==> info_wf(info@),
{
    if raw.name.as_str().is_empty() {
        return Err(DecodeError::EmptyName);
    }
    if raw.files.is_some() == raw.length.is_some() {
        return Err(DecodeError::LengthXorFiles);
    }
    let hashes = match split_digests(raw.pieces.as_slice()) {
        Some(hashes) => hashes,
        None => {
            return Err(DecodeError::InvalidPieces);
        },
    };
    let files = raw.files();
    let is_single_file = raw.length.is_some();
    assert(hashes@.len() == digests_model(hashes@).len());
    assert(hashes@.len() == raw.pieces@.len() as int / 20);
    let pieces = match lay_out_pieces(&files, raw.piece_length, &hashes) {
        Ok(pieces) => pieces,
        Err(_) => {
            return Err(DecodeError::LayoutMismatch);
        },
    };
    let ghost chunks = digest_chunks(raw.pieces@);
    let info = Info { files, is_single_file, name: raw.name, piece_length: raw.piece_length, pieces };
    proof {
        let all = layout(declared_files(raw), raw.piece_length as int, chunks);
        assert forall|j: int| 0 <= j < all.len() implies (#[trigger] all[j]).hash.len() == 20 by {
            assert(all[j].hash == chunks[j]);
        }
    }
    Ok(info)
}

/// The view of a text that may be missing.
pub open spec fn text_model(text: Option<String>) -> Option<Seq<char>> {
    match text {
        Some(t) => Some(t@),
        None => None,
    }
}

/// The pieces of a torrent hold exactly the bytes of its files: all pieces
/// together as many as all files together, every piece before the last as
/// many as the piece length, the last at least one and no more than that,
/// and no slice none.
pub proof fn lemma_info_lengths(info: InfoModel)
    requires
        info_wf(info),
    ensures
        pieces_length(info.pieces) == total_length(info.files),
        forall|j: int|
            0 <= j < info.pieces.len() - 1 ==> slices_length((#[trigger] info.pieces[j]).slices)
                == info.piece_length,
        0 < slices_length(info.pieces.last().slices) <= info.piece_length,
        forall|j: int, i: int|
            0 <= j < info.pieces.len() && 0 <= i < info.pieces[j].slices.len()
                ==> (#[trigger] info.pieces[j].slices[i]).length > 0,
{
    let hashes = Seq::new(info.pieces.len(), |j: int| info.pieces[j].hash);
    let all = layout(info.files, info.piece_length as int, hashes);
    assert(all =~= info.pieces);
    lemma_layout_covers_files(info.files, info.piece_length as int, hashes);
    lemma_piece_length(
        info.files,
        info.piece_length as int,
        info.pieces.len() as int,
        info.pieces.len() - 1,
    );
    assert forall|j: int, i: int|
        0 <= j < info.pieces.len() && 0 <= i < info.pieces[j].slices.len() implies (
    #[trigger] info.pieces[j].slices[i]).length > 0 by {
        assert(all[j].slices[i].length > 0);
    }
}

} // verus!
