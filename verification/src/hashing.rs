//! Checking the pieces of a torrent against the bytes of local files.
//!
//! Reading the files is the caller's: for every slice of a piece it hands in
//! what it read. The library finds where each slice is to be read from, judges
//! the reads and compares digests.

use vstd::prelude::*;
use crate::layout::{SliceModel, slices_length};
use crate::path::{Path, PathModel};
use crate::pathmap::Mapping;
use crate::torrent::Piece;

verus! {

/// The SHA-1 digest of `data`, as the `sha1_smol` crate computes it.
pub uninterp spec fn sha1(data: Seq<u8>) -> Seq<u8>;

/// More bytes than this are not hashed in one go: their number in bits has to
/// fit in 64 bits.
pub const SHA1_MAX_INPUT: u64 = 0x1fff_ffff_ffff_ffff;

/// Hashes `data` with `sha1_smol::Sha1`: `from`, then `digest`, then `bytes`.
///
/// Nothing is proved of the hash function. The contract gives its result the
/// name [`sha1`]: the same bytes always have the same digest.
#[verifier::external_body]
pub(crate) fn sha1_digest(data: &[u8]) -> (r: [u8; 20])
    requires
        data@.len() <= SHA1_MAX_INPUT,
    ensures
        r@ == sha1(data@),
{
    sha1_smol::Sha1::from(data).digest().bytes()
}

/// What came of reading one slice of a piece.
#[derive(Debug, PartialEq, Eq)]
pub enum SliceRead {
    /// No source file is mapped to the slice's path, so nothing was read.
    Unmapped,
    /// The source file could not be opened or read; the message says why.
    Failed(String),
    /// The bytes that the read gave, which may be fewer than were asked for.
    Data(Vec<u8>),
}

/// Why a piece could not be checked.
#[derive(Debug, PartialEq, Eq)]
pub enum CheckError {
    /// No source file is mapped to this path of the torrent.
    UnmappedSlice(Path),
    /// The source file for this path could not be read.
    ReadFailed { path: Path, message: String },
    /// The source file for this path gave `got` bytes at `offset` where `want`
    /// were asked for.
    SliceShortRead { path: Path, offset: u64, got: u64, want: u64 },
}

pub enum CheckFailure {
    UnmappedSlice(PathModel),
    ReadFailed { path: PathModel, message: Seq<char> },
    SliceShortRead { path: PathModel, offset: nat, got: nat, want: nat },
}

impl View for CheckError {
    type V = CheckFailure;

    open spec fn view(&self) -> CheckFailure {
        match self {
            CheckError::UnmappedSlice(path) => CheckFailure::UnmappedSlice(path@),
            CheckError::ReadFailed { path, message } => CheckFailure::ReadFailed {
                path: path@,
                message: message@,
            },
            CheckError::SliceShortRead { path, offset, got, want } => CheckFailure::SliceShortRead {
                path: path@,
                offset: *offset as nat,
                got: *got as nat,
                want: *want as nat,
            },
        }
    }
}

/// What is wrong with the read of one slice, if anything.
pub open spec fn read_failure(slice: SliceModel, read: SliceRead) -> Option<CheckFailure> {
    match read {
        SliceRead::Unmapped => Some(CheckFailure::UnmappedSlice(slice.path)),
        SliceRead::Failed(message) => Some(
            CheckFailure::ReadFailed { path: slice.path, message: message@ },
        ),
        SliceRead::Data(bytes) => if bytes@.len() == slice.length {
            None
        } else {
            Some(
                CheckFailure::SliceShortRead {
                    path: slice.path,
                    offset: slice.offset,
                    got: bytes@.len(),
                    want: slice.length,
                },
            )
        },
    }
}

/// The first failure among the reads of the first `n` slices.
pub open spec fn first_read_failure(slices: Seq<SliceModel>, reads: Seq<SliceRead>, n: int) -> Option<
    CheckFailure,
>
    decreases n,
{
    if n <= 0 {
        None
    } else {
        match first_read_failure(slices, reads, n - 1) {
            Some(failure) => Some(failure),
            None => read_failure(slices[n - 1], reads[n - 1]),
        }
    }
}

/// The bytes of the first `n` reads, one after another.
pub open spec fn read_bytes(reads: Seq<SliceRead>, n: int) -> Seq<u8>
    decreases n,
{
    if n <= 0 {
        Seq::empty()
    } else {
        match reads[n - 1] {
            SliceRead::Data(bytes) => read_bytes(reads, n - 1) + bytes@,
            _ => read_bytes(reads, n - 1),
        }
    }
}

/// Where a slice is to be read.
#[derive(Debug, PartialEq, Eq)]
pub struct ReadRequest {
    pub source: Path,
    pub offset: u64,
    pub length: u64,
}

pub proof fn lemma_read_failure_stays(slices: Seq<SliceModel>, reads: Seq<SliceRead>, n: int, m: int)
    requires
        0 <= n <= m,
    ensures
        first_read_failure(slices, reads, n) is Some ==> first_read_failure(slices, reads, m)
            == first_read_failure(slices, reads, n),
    decreases m - n,
{
    if n < m {
        lemma_read_failure_stays(slices, reads, n, m - 1);
    }
}

/// Reads that did not fail gave as many bytes as the slices hold.
pub proof fn lemma_read_bytes_length(slices: Seq<SliceModel>, reads: Seq<SliceRead>, n: int)
    requires
        0 <= n <= slices.len(),
        first_read_failure(slices, reads, n) is None,
    ensures
        read_bytes(reads, n).len() == slices_length(slices.take(n)),
    decreases n,
{
    if n > 0 {
        lemma_read_bytes_length(slices, reads, n - 1);
        assert(slices.take(n).drop_last() =~= slices.take(n - 1));
        assert(slices.take(n).last() == slices[n - 1]);
    } else {
        assert(slices.take(0) =~= Seq::<SliceModel>::empty());
    }
}

pub proof fn lemma_slices_length_monotonic(slices: Seq<SliceModel>, n: int)
    requires
        0 <= n <= slices.len(),
    ensures
        0 <= slices_length(slices.take(n)) <= slices_length(slices),
    decreases slices.len() - n,
{
    lemma_slices_length_not_negative(slices.take(n));
    if n < slices.len() {
        lemma_slices_length_monotonic(slices, n + 1);
        assert(slices.take(n + 1).drop_last() =~= slices.take(n));
    } else {
        assert(slices.take(n) =~= slices);
        lemma_slices_length_not_negative(slices);
    }
}

pub proof fn lemma_slices_length_not_negative(slices: Seq<SliceModel>)
    ensures
        0 <= slices_length(slices),
    decreases slices.len(),
{
    if slices.len() > 0 {
        lemma_slices_length_not_negative(slices.drop_last());
    }
}

impl Piece {
    /// Where each slice of the piece is to be read, given which source file
    /// stands for which path. There is no place for a slice whose path is not
    /// mapped.
    pub fn read_requests(&self, mapping: &Mapping) -> (r: Vec<Option<ReadRequest>>)
        ensures
            r@.len() == self.file_slices@.len(),
            forall|i: int|
                0 <= i < r@.len() ==> match #[trigger] r@[i] {
                    Some(request) => {
                        &&& mapping.keys().contains(self.file_slices@[i].path@)
                        &&& request.source@ == mapping.as_map()[self.file_slices@[i].path@]
                        &&& request.offset == self.file_slices@[i].offset
                        &&& request.length == self.file_slices@[i].length
                    },
                    None => !mapping.keys().contains(self.file_slices@[i].path@),
                },
    {
        let mut requests: Vec<Option<ReadRequest>> = Vec::new();
        let mut i: usize = 0;
        while i < self.file_slices.len()
            invariant
                i <= self.file_slices@.len(),
                requests@.len() == i,
                forall|t: int|
                    0 <= t < i ==> match #[trigger] requests@[t] {
                        Some(request) => {
                            &&& mapping.keys().contains(self.file_slices@[t].path@)
                            &&& request.source@ == mapping.as_map()[self.file_slices@[t].path@]
                            &&& request.offset == self.file_slices@[t].offset
                            &&& request.length == self.file_slices@[t].length
                        },
                        None => !mapping.keys().contains(self.file_slices@[t].path@),
                    },
            decreases self.file_slices@.len() - i,
        {
            let slice = &self.file_slices[i];
            let request = match mapping.get(&slice.path) {
                Some(source) => Some(
                    ReadRequest { source: source.clone(), offset: slice.offset, length: slice.length },
                ),
                None => None,
            };
            requests.push(request);
            i += 1;
        }
        requests
    }

    /// Judges the reads of the piece's slices, `reads[i]` being what came of
    /// reading slice `i`.
    ///
    /// The first read that found no source file, failed or came short fails
    /// the piece. Otherwise the piece passes exactly when the SHA-1 digest of
    /// the bytes read, taken together in the order of the slices, is the
    /// piece's own.
    pub fn check(&self, reads: &Vec<SliceRead>) -> (r: Result<bool, CheckError>)
        requires
            reads@.len() == self.file_slices@.len(),
            slices_length(self@.slices) <= SHA1_MAX_INPUT,
        ensures
            match r {
                Ok(passed) => {
                    &&& first_read_failure(self@.slices, reads@, reads@.len() as int) is None
                    &&& passed == (sha1(read_bytes(reads@, reads@.len() as int)) == self.hash@)
                },
                Err(e) => first_read_failure(self@.slices, reads@, reads@.len() as int) == Some(e@),
            },
    {
        let n = self.file_slices.len();
        let ghost slices = self@.slices;
        let mut data: Vec<u8> = Vec::new();
        let mut i: usize = 0;
        while i < n
            invariant
                n == reads@.len(),
                n == self.file_slices@.len(),
                slices == self@.slices,
                i <= n,
                first_read_failure(slices, reads@, i as int) is None,
                data@ == read_bytes(reads@, i as int),
            decreases n - i,
        {
            let slice = &self.file_slices[i];
            assert(slices[i as int] == slice@);
            proof {
                lemma_read_failure_stays(slices, reads@, i + 1, n as int);
            }
            match &reads[i] {
                SliceRead::Unmapped => {
                    return Err(CheckError::UnmappedSlice(slice.path.clone()));
                },
                SliceRead::Failed(message) => {
                    return Err(
                        CheckError::ReadFailed {
                            path: slice.path.clone(),
                            message: message.clone(),
                        },
                    );
                },
                SliceRead::Data(bytes) => {
                    if bytes.len() as u64 != slice.length {
                        return Err(
                            CheckError::SliceShortRead {
                                path: slice.path.clone(),
                                offset: slice.offset,
                                got: bytes.len() as u64,
                                want: slice.length,
                            },
                        );
                    }
                    let ghost before = data@;
                    let mut k: usize = 0;
                    while k < bytes.len()
                        invariant
                            k <= bytes@.len(),
                            data@ == before + bytes@.take(k as int),
                        decreases bytes@.len() - k,
                    {
                        data.push(bytes[k]);
                        assert(data@ =~= before + bytes@.take(k + 1));
                        k += 1;
                    }
                    assert(bytes@.take(bytes@.len() as int) =~= bytes@);
                },
            }
            i += 1;
        }
        proof {
            lemma_read_bytes_length(slices, reads@, n as int);
            lemma_slices_length_monotonic(slices, n as int);
        }
        let digest = sha1_digest(data.as_slice());
        let own = self.hash.bytes();
        let mut same = true;
        let mut k: usize = 0;
        assert(digest@.take(0) =~= own@.take(0));
        while k < 20
            invariant
                k <= 20,
                same == (digest@.take(k as int) == own@.take(k as int)),
            decreases 20 - k,
        {
            if digest[k] != own[k] {
                same = false;
            }
            proof {
                let a = digest@.take(k + 1);
                let b = own@.take(k + 1);
                if digest@.take(k as int) == own@.take(k as int) && digest@[k as int] == own@[k as int] {
                    assert(a =~= b) by {
                        assert forall|t: int| 0 <= t < k + 1 implies a[t] == b[t] by {
                            if t < k {
                                assert(digest@.take(k as int)[t] == own@.take(k as int)[t]);
                            }
                        }
                    }
                } else if digest@[k as int] != own@[k as int] {
                    assert(a[k as int] != b[k as int]);
                } else {
                    if a == b {
                        assert(digest@.take(k as int) =~= a.take(k as int));
                        assert(own@.take(k as int) =~= b.take(k as int));
                    }
                }
            }
            k += 1;
        }
        assert(digest@.take(20) =~= digest@);
        assert(own@.take(20) =~= own@);
        Ok(same)
    }
}

} // verus!
