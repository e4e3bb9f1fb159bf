//! The torrent client's view of its torrents.
//!
//! Talking to the client is the caller's. The library joins what the client
//! lists into torrents and selects the torrents that own a set of files.

use vstd::prelude::*;
use crate::path::{Path, PathModel, path_join};
use crate::pathmap::{FileSizes, absorb, find_path, path_models, lemma_absorb_no_duplicates};

verus! {

/// The bits of the progress `1.0`, a torrent that is complete.
pub const PROGRESS_COMPLETE: u64 = 0x3ff0_0000_0000_0000;

/// A torrent as the client holds it.
#[derive(Debug, PartialEq, Eq)]
pub struct Torrent {
    /// The infohash in hexadecimal digits.
    pub id: String,
    pub name: String,
    pub base_path: Path,
    /// The share that is downloaded, between `0.0` and `1.0`, as the bits of
    /// a 64-bit float.
    pub progress: u64,
    pub tracker_urls: Vec<String>,
    pub size: u64,
    /// The size of each file, by its path below `base_path`.
    pub files: FileSizes,
}

pub struct ClientTorrentModel {
    pub id: Seq<char>,
    pub name: Seq<char>,
    pub base_path: PathModel,
    pub progress: u64,
    pub tracker_urls: Seq<Seq<char>>,
    pub size: u64,
    pub paths: Seq<PathModel>,
    pub sizes: Seq<u64>,
}

pub open spec fn texts_model(texts: Seq<String>) -> Seq<Seq<char>> {
    Seq::new(texts.len(), |i: int| texts[i]@)
}

impl View for Torrent {
    type V = ClientTorrentModel;

    open spec fn view(&self) -> ClientTorrentModel {
        ClientTorrentModel {
            id: self.id@,
            name: self.name@,
            base_path: self.base_path@,
            progress: self.progress,
            tracker_urls: texts_model(self.tracker_urls@),
            size: self.size,
            paths: self.files.keys(),
            sizes: self.files.sizes(),
        }
    }
}

pub open spec fn torrents_model(torrents: Seq<Torrent>) -> Seq<ClientTorrentModel> {
    Seq::new(torrents.len(), |i: int| torrents[i]@)
}

/// A copy of the texts.
pub fn clone_texts(texts: &Vec<String>) -> (r: Vec<String>)
    ensures
        texts_model(r@) == texts_model(texts@),
{
    let mut out: Vec<String> = Vec::new();
    let mut i: usize = 0;
    while i < texts.len()
        invariant
            i <= texts@.len(),
            out@.len() == i,
            forall|j: int| 0 <= j < i ==> out@[j]@ == texts@[j]@,
        decreases texts@.len() - i,
    {
        out.push(texts[i].clone());
        i += 1;
    }
    assert(texts_model(out@) =~= texts_model(texts@));
    out
}

impl Clone for Torrent {
    fn clone(&self) -> (r: Torrent)
        ensures
            r@ == self@,
    {
        Torrent {
            id: self.id.clone(),
            name: self.name.clone(),
            base_path: self.base_path.clone(),
            progress: self.progress,
            tracker_urls: clone_texts(&self.tracker_urls),
            size: self.size,
            files: self.files.clone(),
        }
    }
}

impl Torrent {
    /// Whether the client has all of the torrent.
    pub fn is_complete(&self) -> (r: bool)
        ensures
            r == (self.progress == PROGRESS_COMPLETE),
    {
        self.progress == PROGRESS_COMPLETE
    }
}

/// Why no torrents could be selected for a set of files.
#[derive(Debug, PartialEq, Eq)]
pub enum FilterTorrentsError {
    /// The torrent of this id owns some of the files and also these, which
    /// are not among them.
    TorrentIncludesSourceAndNonSourceFiles(String, Vec<Path>),
    /// Some of the files belong to no torrent.
    DidNotMatchAllSourceFiles { matched: usize, total: usize },
}

pub enum FilterFailure {
    Mixed(Seq<char>, Seq<PathModel>),
    Unmatched { matched: nat, total: nat },
}

impl View for FilterTorrentsError {
    type V = FilterFailure;

    open spec fn view(&self) -> FilterFailure {
        match self {
            FilterTorrentsError::TorrentIncludesSourceAndNonSourceFiles(id, missing) => {
                FilterFailure::Mixed(id@, path_models(missing@))
            },
            FilterTorrentsError::DidNotMatchAllSourceFiles { matched, total } => {
                FilterFailure::Unmatched { matched: *matched as nat, total: *total as nat }
            },
        }
    }
}

/// Where the files of a torrent lie: each path read from the base path.
pub open spec fn joined_paths(torrent: ClientTorrentModel) -> Seq<PathModel> {
    Seq::new(torrent.paths.len(), |i: int| path_join(torrent.base_path, torrent.paths[i]))
}

/// The paths that are not among the source files, in their order.
pub open spec fn missing_paths(paths: Seq<PathModel>, source: Seq<PathModel>) -> Seq<PathModel>
    decreases paths.len(),
{
    if paths.len() == 0 {
        Seq::empty()
    } else {
        let before = missing_paths(paths.drop_last(), source);
        if source.contains(paths.last()) {
            before
        } else {
            before.push(paths.last())
        }
    }
}

/// The paths that are among the source files, in their order.
pub open spec fn included_paths(paths: Seq<PathModel>, source: Seq<PathModel>) -> Seq<PathModel>
    decreases paths.len(),
{
    if paths.len() == 0 {
        Seq::empty()
    } else {
        let before = included_paths(paths.drop_last(), source);
        if source.contains(paths.last()) {
            before.push(paths.last())
        } else {
            before
        }
    }
}

/// What a pass over the torrents has kept, and which source files it has met.
pub struct Selection {
    pub kept: Seq<ClientTorrentModel>,
    pub seen: Seq<PathModel>,
}

/// Passes over the torrents in order. A torrent none of whose files is a
/// source file is passed over; one all of whose files are source files is
/// kept; the first that has files of both sorts stops the pass.
pub open spec fn select(torrents: Seq<ClientTorrentModel>, source: Seq<PathModel>) -> Result<
    Selection,
    FilterFailure,
>
    decreases torrents.len(),
{
    if torrents.len() == 0 {
        Ok(Selection { kept: Seq::empty(), seen: Seq::empty() })
    } else {
        match select(torrents.drop_last(), source) {
            Err(e) => Err(e),
            Ok(before) => {
                let torrent = torrents.last();
                let joined = joined_paths(torrent);
                let missing = missing_paths(joined, source);
                let seen = absorb(before.seen, included_paths(joined, source));
                if missing.len() == joined.len() {
                    Ok(Selection { kept: before.kept, seen })
                } else if missing.len() > 0 {
                    Err(FilterFailure::Mixed(torrent.id, missing))
                } else {
                    Ok(Selection { kept: before.kept.push(torrent), seen })
                }
            },
        }
    }
}

/// The torrents that own the source files: see [`select`]. The selection
/// fails where it leaves a source file without a torrent.
pub open spec fn filtered(torrents: Seq<ClientTorrentModel>, source: Seq<PathModel>) -> Result<
    Seq<ClientTorrentModel>,
    FilterFailure,
> {
    match select(torrents, source) {
        Err(e) => Err(e),
        Ok(selection) => if selection.seen.len() == source.len() {
            Ok(selection.kept)
        } else {
            Err(FilterFailure::Unmatched { matched: selection.seen.len(), total: source.len() })
        },
    }
}

pub proof fn lemma_select_failure_stays(
    torrents: Seq<ClientTorrentModel>,
    source: Seq<PathModel>,
    n: int,
)
    requires
        0 <= n <= torrents.len(),
    ensures
        select(torrents.take(n), source) is Err ==> select(torrents, source) == select(
            torrents.take(n),
            source,
        ),
    decreases torrents.len() - n,
{
    if n < torrents.len() {
        lemma_select_failure_stays(torrents, source, n + 1);
        assert(torrents.take(n + 1).drop_last() =~= torrents.take(n));
    } else {
        assert(torrents.take(n) =~= torrents);
    }
}

/// The source files that a selection has met are source files, each met once.
pub proof fn lemma_select_seen(torrents: Seq<ClientTorrentModel>, source: Seq<PathModel>)
    ensures
        select(torrents, source) matches Ok(selection) ==> selection.seen.no_duplicates()
            && forall|p: PathModel| #[trigger] selection.seen.contains(p) ==> source.contains(p),
    decreases torrents.len(),
{
    if torrents.len() > 0 {
        lemma_select_seen(torrents.drop_last(), source);
        if let Ok(before) = select(torrents.drop_last(), source) {
            let joined = joined_paths(torrents.last());
            let included = included_paths(joined, source);
            lemma_absorb_no_duplicates(before.seen, included);
            lemma_included_are_source(joined, source);
        }
    }
}

pub proof fn lemma_included_are_source(paths: Seq<PathModel>, source: Seq<PathModel>)
    ensures
        forall|p: PathModel| #[trigger] included_paths(paths, source).contains(p) ==> source.contains(p),
        included_paths(paths, source).len() + missing_paths(paths, source).len() == paths.len(),
    decreases paths.len(),
{
    if paths.len() > 0 {
        lemma_included_are_source(paths.drop_last(), source);
        let before = included_paths(paths.drop_last(), source);
        let all = included_paths(paths, source);
        assert forall|p: PathModel| #[trigger] all.contains(p) implies source.contains(p) by {
            let i = all.index_of(p);
            if i < before.len() {
                assert(before[i] == p);
                assert(before.contains(p));
            }
        }
    }
}

/// Selects the torrents all of whose files are among `source_files`.
///
/// A torrent with files of both sorts fails the selection, and so does a
/// source file that no torrent owns: see [`filtered`].
pub fn filter_torrents(torrents: &[Torrent], source_files: &FileSizes) -> (r: Result<
    Vec<Torrent>,
    FilterTorrentsError,
>)
    ensures
        match r {
            Ok(kept) => filtered(torrents_model(torrents@), source_files.keys()) == Ok::<
                _,
                FilterFailure,
            >(torrents_model(kept@)),
            Err(e) => filtered(torrents_model(torrents@), source_files.keys()) == Err::<
                Seq<ClientTorrentModel>,
                _,
            >(e@),
        },
{
    let ghost models = torrents_model(torrents@);
    let ghost source = source_files.keys();
    let mut kept: Vec<Torrent> = Vec::new();
    let mut seen: Vec<Path> = Vec::new();
    let mut i: usize = 0;
    assert(models.take(0) =~= Seq::<ClientTorrentModel>::empty());
    assert(torrents_model(kept@) =~= Seq::<ClientTorrentModel>::empty());
    assert(path_models(seen@) =~= Seq::<PathModel>::empty());
    while i < torrents.len()
        invariant
            models == torrents_model(torrents@),
            source == source_files.keys(),
            i <= torrents@.len(),
            select(models.take(i as int), source) == Ok::<_, FilterFailure>(
                Selection { kept: torrents_model(kept@), seen: path_models(seen@) },
            ),
        decreases torrents@.len() - i,
    {
        let torrent = &torrents[i];
        let ghost joined = joined_paths(torrent@);
        let ghost seen_before = path_models(seen@);
        let ghost kept_before = torrents_model(kept@);
        proof {
            assert(models.take(i + 1).drop_last() =~= models.take(i as int));
            assert(models.take(i + 1).last() == torrent@);
            lemma_select_failure_stays(models, source, i + 1);
        }
        let count = torrent.files.len();
        let mut missing: Vec<Path> = Vec::new();
        let mut k: usize = 0;
        assert(joined.take(0) =~= Seq::<PathModel>::empty());
        assert(path_models(missing@) =~= Seq::<PathModel>::empty());
        while k < count
            invariant
                source == source_files.keys(),
                joined == joined_paths(torrent@),
                count == torrent.files.keys().len(),
                k <= count,
                path_models(missing@) == missing_paths(joined.take(k as int), source),
                path_models(seen@) == absorb(
                    seen_before,
                    included_paths(joined.take(k as int), source),
                ),
            decreases count - k,
        {
            proof {
                assert(joined.take(k + 1).drop_last() =~= joined.take(k as int));
                assert(joined.take(k + 1).last() == joined[k as int]);
            }
            let path = torrent.base_path.join(torrent.files.path(k));
            let ghost missing_before = path_models(missing@);
            let ghost seen_here = path_models(seen@);
            if source_files.contains_key(&path) {
                proof {
                    let earlier = included_paths(joined.take(k as int), source);
                    let now = included_paths(joined.take(k + 1), source);
                    assert(now == earlier.push(joined[k as int]));
                    assert(now.drop_last() =~= earlier);
                    assert(now.last() == joined[k as int]);
                }
                match find_path(&seen, &path) {
                    Some(at) => {
                        assert(seen_here[at as int] == joined[k as int]);
                    },
                    None => {
                        seen.push(path);
                        assert(path_models(seen@) =~= seen_here.push(joined[k as int]));
                    },
                }
            } else {
                missing.push(path);
                assert(path_models(missing@) =~= missing_before.push(joined[k as int]));
            }
            k += 1;
        }
        assert(joined.take(count as int) =~= joined);
        assert(path_models(missing@).len() == missing@.len());
        if missing.len() == count {
        } else if missing.len() > 0 {
            return Err(
                FilterTorrentsError::TorrentIncludesSourceAndNonSourceFiles(
                    torrent.id.clone(),
                    missing,
                ),
            );
        } else {
            kept.push(torrent.clone());
            assert(torrents_model(kept@) =~= kept_before.push(torrent@));
        }
        i += 1;
    }
    assert(models.take(torrents@.len() as int) =~= models);
    assert(path_models(seen@).len() == seen@.len());
    let total = source_files.len();
    if seen.len() == total {
        Ok(kept)
    } else {
        Err(FilterTorrentsError::DidNotMatchAllSourceFiles { matched: seen.len(), total })
    }
}

/// A torrent as the client lists it: without its files, but with their number.
#[derive(Debug, PartialEq, Eq)]
pub struct RawTorrent {
    pub id: String,
    pub name: String,
    pub path: Path,
    /// The progress as the bits of a 64-bit float.
    pub progress: u64,
    pub tracker_urls: Vec<String>,
    pub size: u64,
    /// The number of files.
    pub files: usize,
}

/// A file as the client lists it.
#[derive(Debug, PartialEq, Eq)]
pub struct RawFile {
    pub id: String,
    pub torrent_id: String,
    pub path: Path,
    pub size: u64,
}

/// Why the client's lists do not make torrents.
#[derive(Debug, PartialEq, Eq)]
#[allow(inconsistent_fields)]
pub enum GetTorrentsError {
    /// The file at `path` names a torrent that is not listed.
    NoMatchingTorrent { torrent_id: String, path: Path },
    /// The torrent of this id lists the file at `path` twice.
    DuplicatePath { id: String, path: Path },
    /// The torrent of this id has `got` files, and the client counted `expected`.
    FileCountMismatch { id: String, got: usize, expected: usize },
    /// The files of the torrent of this id hold `got` bytes together, and the
    /// torrent `expected`.
    SizeMismatch { id: String, got: u128, expected: u64 },
}

pub enum JoinFailure {
    NoMatchingTorrent { torrent_id: Seq<char>, path: PathModel },
    DuplicatePath { id: Seq<char>, path: PathModel },
    FileCountMismatch { id: Seq<char>, got: nat, expected: nat },
    SizeMismatch { id: Seq<char>, got: nat, expected: nat },
}

impl View for GetTorrentsError {
    type V = JoinFailure;

    open spec fn view(&self) -> JoinFailure {
        match self {
            GetTorrentsError::NoMatchingTorrent { torrent_id, path } => {
                JoinFailure::NoMatchingTorrent { torrent_id: torrent_id@, path: path@ }
            },
            GetTorrentsError::DuplicatePath { id, path } => JoinFailure::DuplicatePath {
                id: id@,
                path: path@,
            },
            GetTorrentsError::FileCountMismatch { id, got, expected } => {
                JoinFailure::FileCountMismatch {
                    id: id@,
                    got: *got as nat,
                    expected: *expected as nat,
                }
            },
            GetTorrentsError::SizeMismatch { id, got, expected } => JoinFailure::SizeMismatch {
                id: id@,
                got: *got as nat,
                expected: *expected as nat,
            },
        }
    }
}

/// A torrent that is being put together, with the number of files that the
/// client counted for it.
pub struct Slot {
    pub torrent: ClientTorrentModel,
    pub count: nat,
}

/// The torrent that a listed torrent starts as: without files.
pub open spec fn raw_slot(raw: RawTorrent) -> Slot {
    Slot {
        torrent: ClientTorrentModel {
            id: raw.id@,
            name: raw.name@,
            base_path: raw.path@,
            progress: raw.progress,
            tracker_urls: texts_model(raw.tracker_urls@),
            size: raw.size,
            paths: Seq::empty(),
            sizes: Seq::empty(),
        },
        count: raw.files as nat,
    }
}

/// The place of the first torrent of this id; `-1` where there is none.
pub open spec fn slot_at(slots: Seq<Slot>, id: Seq<char>) -> int
    decreases slots.len(),
{
    if slots.len() == 0 {
        -1
    } else {
        let before = slot_at(slots.drop_last(), id);
        if before >= 0 {
            before
        } else if slots.last().torrent.id == id {
            slots.len() - 1
        } else {
            -1
        }
    }
}

/// The listed torrents by id. An id that is listed again keeps its place and
/// takes what the later entry says.
pub open spec fn slots_of(raws: Seq<RawTorrent>) -> Seq<Slot>
    decreases raws.len(),
{
    if raws.len() == 0 {
        Seq::empty()
    } else {
        let before = slots_of(raws.drop_last());
        let at = slot_at(before, raws.last().id@);
        if at >= 0 {
            before.update(at, raw_slot(raws.last()))
        } else {
            before.push(raw_slot(raws.last()))
        }
    }
}

/// Gives the file to its torrent. A file of no torrent, and a path that its
/// torrent holds already, fail.
pub open spec fn with_file(slots: Seq<Slot>, file: RawFile) -> Result<Seq<Slot>, JoinFailure> {
    let at = slot_at(slots, file.torrent_id@);
    if at < 0 {
        Err(JoinFailure::NoMatchingTorrent { torrent_id: file.torrent_id@, path: file.path@ })
    } else if slots[at].torrent.paths.contains(file.path@) {
        Err(JoinFailure::DuplicatePath { id: slots[at].torrent.id, path: file.path@ })
    } else {
        let torrent = slots[at].torrent;
        Ok(
            slots.update(
                at,
                Slot {
                    torrent: ClientTorrentModel {
                        paths: torrent.paths.push(file.path@),
                        sizes: torrent.sizes.push(file.size),
                        ..torrent
                    },
                    count: slots[at].count,
                },
            ),
        )
    }
}

/// Gives the files to their torrents, one by one; the first failure stops it.
pub open spec fn with_files(slots: Seq<Slot>, files: Seq<RawFile>) -> Result<Seq<Slot>, JoinFailure>
    decreases files.len(),
{
    if files.len() == 0 {
        Ok(slots)
    } else {
        match with_files(slots, files.drop_last()) {
            Err(e) => Err(e),
            Ok(before) => with_file(before, files.last()),
        }
    }
}

/// The sizes added up.
pub open spec fn sum_sizes(sizes: Seq<u64>) -> nat
    decreases sizes.len(),
{
    if sizes.len() == 0 {
        0
    } else {
        sum_sizes(sizes.drop_last()) + sizes.last() as nat
    }
}

/// What is wrong with a torrent once it has its files: their number is not
/// the one that the client counted, or their sizes do not add up to the
/// torrent's.
pub open spec fn slot_failure(slot: Slot) -> Option<JoinFailure> {
    if slot.torrent.paths.len() != slot.count {
        Some(
            JoinFailure::FileCountMismatch {
                id: slot.torrent.id,
                got: slot.torrent.paths.len(),
                expected: slot.count,
            },
        )
    } else if sum_sizes(slot.torrent.sizes) != slot.torrent.size {
        Some(
            JoinFailure::SizeMismatch {
                id: slot.torrent.id,
                got: sum_sizes(slot.torrent.sizes),
                expected: slot.torrent.size as nat,
            },
        )
    } else {
        None
    }
}

/// The first failure among the first `n` torrents.
pub open spec fn first_slot_failure(slots: Seq<Slot>, n: int) -> Option<JoinFailure>
    decreases n,
{
    if n <= 0 {
        None
    } else {
        match first_slot_failure(slots, n - 1) {
            Some(e) => Some(e),
            None => slot_failure(slots[n - 1]),
        }
    }
}

/// The torrents that the client's two lists make.
pub open spec fn joined(raws: Seq<RawTorrent>, files: Seq<RawFile>) -> Result<
    Seq<ClientTorrentModel>,
    JoinFailure,
> {
    match with_files(slots_of(raws), files) {
        Err(e) => Err(e),
        Ok(slots) => match first_slot_failure(slots, slots.len() as int) {
            Some(e) => Err(e),
            None => Ok(Seq::new(slots.len(), |i: int| slots[i].torrent)),
        },
    }
}

/// The number of files that the client counted for the torrent of this id.
pub open spec fn reported_count(raws: Seq<RawTorrent>, id: Seq<char>) -> nat {
    let slots = slots_of(raws);
    slots[slot_at(slots, id)].count
}

pub proof fn lemma_slot_at(slots: Seq<Slot>, id: Seq<char>)
    ensures
        -1 <= slot_at(slots, id) < slots.len(),
        slot_at(slots, id) >= 0 ==> slots[slot_at(slots, id)].torrent.id == id,
        slot_at(slots, id) < 0 ==> forall|i: int|
            0 <= i < slots.len() ==> (#[trigger] slots[i]).torrent.id != id,
        forall|i: int|
            0 <= i < slot_at(slots, id) ==> (#[trigger] slots[i]).torrent.id != id,
    decreases slots.len(),
{
    if slots.len() > 0 {
        lemma_slot_at(slots.drop_last(), id);
        assert forall|i: int| 0 <= i < slots.len() - 1 implies slots[i] == slots.drop_last()[i] by {}
        if slot_at(slots, id) < 0 {
            assert forall|i: int| 0 <= i < slots.len() implies (#[trigger] slots[i]).torrent.id
                != id by {
                if i < slots.len() - 1 {
                    assert(slots.drop_last()[i].torrent.id != id);
                }
            }
        }
        assert forall|i: int| 0 <= i < slot_at(slots, id) implies (#[trigger] slots[i]).torrent.id
            != id by {
            assert(slots.drop_last()[i].torrent.id != id);
        }
    }
}

/// Whether no two torrents have the same id.
pub open spec fn distinct_ids(slots: Seq<Slot>) -> bool {
    forall|i: int, j: int|
        0 <= i < j < slots.len() ==> (#[trigger] slots[i]).torrent.id != (#[trigger] slots[j]).torrent.id
}

pub proof fn lemma_slots_of_distinct(raws: Seq<RawTorrent>)
    ensures
        distinct_ids(slots_of(raws)),
    decreases raws.len(),
{
    if raws.len() > 0 {
        let before = slots_of(raws.drop_last());
        lemma_slots_of_distinct(raws.drop_last());
        lemma_slot_at(before, raws.last().id@);
    }
}

/// Giving files to torrents keeps every torrent in its place, with its id
/// and its count.
pub proof fn lemma_with_files_keeps(slots: Seq<Slot>, files: Seq<RawFile>)
    ensures
        with_files(slots, files) matches Ok(after) ==> after.len() == slots.len() && forall|i: int|
            0 <= i < slots.len() ==> (#[trigger] after[i]).torrent.id == slots[i].torrent.id
                && after[i].count == slots[i].count,
    decreases files.len(),
{
    if files.len() > 0 {
        lemma_with_files_keeps(slots, files.drop_last());
        if let Ok(before) = with_files(slots, files.drop_last()) {
            lemma_slot_at(before, files.last().torrent_id@);
        }
    }
}

/// In a list without repeated ids, every torrent is the first of its id.
pub proof fn lemma_slot_at_own(slots: Seq<Slot>, i: int)
    requires
        distinct_ids(slots),
        0 <= i < slots.len(),
    ensures
        slot_at(slots, slots[i].torrent.id) == i,
{
    lemma_slot_at(slots, slots[i].torrent.id);
    let at = slot_at(slots, slots[i].torrent.id);
    if at != i {
        assert(at >= 0);
        if at < i {
            assert(slots[at].torrent.id != slots[i].torrent.id);
        }
    }
}

/// The place of the first torrent of this id among the slots.
fn find_slot(torrents: &Vec<Torrent>, id: &String) -> (r: Option<usize>)
    ensures
        match r {
            Some(at) => at < torrents@.len() && torrents@[at as int].id@ == id@ && forall|i: int|
                0 <= i < at ==> (#[trigger] torrents@[i]).id@ != id@,
            None => forall|i: int| 0 <= i < torrents@.len() ==> (#[trigger] torrents@[i]).id@ != id@,
        },
{
    let mut i: usize = 0;
    while i < torrents.len()
        invariant
            i <= torrents@.len(),
            forall|t: int| 0 <= t < i ==> (#[trigger] torrents@[t]).id@ != id@,
        decreases torrents@.len() - i,
    {
        if torrents[i].id == *id {
            return Some(i);
        }
        i += 1;
    }
    None
}

/// The slots that torrents and counts stand for.
pub open spec fn slots_model(torrents: Seq<Torrent>, counts: Seq<usize>) -> Seq<Slot> {
    Seq::new(torrents.len(), |i: int| Slot { torrent: torrents[i]@, count: counts[i] as nat })
}

proof fn lemma_find_slot(slots: Seq<Slot>, id: Seq<char>, at: int)
    requires
        -1 <= at < slots.len(),
        at >= 0 ==> slots[at].torrent.id == id,
        forall|i: int| 0 <= i < (if at >= 0 { at } else { slots.len() as int }) ==> (#[trigger] slots[i]).torrent.id != id,
    ensures
        slot_at(slots, id) == at,
{
    lemma_slot_at(slots, id);
    let found = slot_at(slots, id);
    if found >= 0 {
        if at < 0 || found < at {
            assert(slots[found].torrent.id != id);
        }
    }
}

/// The bytes that the sizes add up to.
fn total_size(files: &FileSizes) -> (r: u128)
    ensures
        r == sum_sizes(files.sizes()),
{
    let n = files.len();
    let mut total: u128 = 0;
    let mut i: usize = 0;
    assert(files.sizes().take(0) =~= Seq::<u64>::empty());
    while i < n
        invariant
            n == files.keys().len(),
            n == files.sizes().len(),
            i <= n,
            total == sum_sizes(files.sizes().take(i as int)),
            total <= i * 0xffff_ffff_ffff_ffff,
        decreases n - i,
    {
        proof {
            assert(files.sizes().take(i + 1).drop_last() =~= files.sizes().take(i as int));
            assert(files.sizes().take(i + 1).last() == files.sizes()[i as int]);
        }
        total = total + files.size(i) as u128;
        i += 1;
    }
    assert(files.sizes().take(n as int) =~= files.sizes());
    total
}

/// Joins the client's list of torrents and its list of files into torrents
/// with their files: see [`joined`].
///
/// Every torrent that comes out has as many files as the client counted for
/// it, and its files are as large together as the torrent.
pub fn get_torrents(raw_torrents: Vec<RawTorrent>, raw_files: Vec<RawFile>) -> (r: Result<
    Vec<Torrent>,
    GetTorrentsError,
>)
    ensures
        match r {
            Ok(torrents) => joined(raw_torrents@, raw_files@) == Ok::<_, JoinFailure>(
                torrents_model(torrents@),
            ),
            Err(e) => joined(raw_torrents@, raw_files@) == Err::<Seq<ClientTorrentModel>, _>(e@),
        },
        r matches Ok(torrents) ==> forall|i: int|
            0 <= i < torrents@.len() ==> {
                &&& sum_sizes((#[trigger] torrents@[i]).files.sizes()) == torrents@[i].size
                &&& torrents@[i].files.keys().len() == reported_count(
                    raw_torrents@,
                    torrents@[i].id@,
                )
            },
{
    let mut torrents: Vec<Torrent> = Vec::new();
    let mut counts: Vec<usize> = Vec::new();
    let ghost raws = raw_torrents@;
    let ghost files = raw_files@;
    let n = raw_torrents.len();
    let mut i: usize = 0;
    assert(raws.take(0) =~= Seq::<RawTorrent>::empty());
    assert(slots_model(torrents@, counts@) =~= slots_of(raws.take(0)));
    while i < n
        invariant
            n == raws.len(),
            raw_torrents@ == raws,
            i <= n,
            torrents@.len() == counts@.len(),
            slots_model(torrents@, counts@) == slots_of(raws.take(i as int)),
        decreases n - i,
    {
        proof {
            assert(raws.take(i + 1).drop_last() =~= raws.take(i as int));
            assert(raws.take(i + 1).last() == raws[i as int]);
        }
        let raw = &raw_torrents[i];
        let files = FileSizes::new();
        let torrent = Torrent {
            id: raw.id.clone(),
            name: raw.name.clone(),
            base_path: raw.path.clone(),
            progress: raw.progress,
            tracker_urls: clone_texts(&raw.tracker_urls),
            size: raw.size,
            files,
        };
        let count = raw.files;
        let ghost before = slots_model(torrents@, counts@);
        let found = find_slot(&torrents, &raw.id);
        proof {
            let at = match found {
                Some(at) => at as int,
                None => -1,
            };
            assert forall|t: int| 0 <= t < before.len() implies (#[trigger] before[t]).torrent.id
                == torrents@[t].id@ by {}
            lemma_find_slot(before, raw.id@, at);
        }
        match found {
            Some(at) => {
                torrents.push(torrent);
                let _ = torrents.swap_remove(at);
                counts.push(count);
                let _ = counts.swap_remove(at);
                assert(slots_model(torrents@, counts@) =~= before.update(at as int, raw_slot(*raw)));
            },
            None => {
                torrents.push(torrent);
                counts.push(count);
                assert(slots_model(torrents@, counts@) =~= before.push(raw_slot(*raw)));
            },
        }
        i += 1;
    }
    assert(raws.take(n as int) =~= raws);
    let m = raw_files.len();
    let mut k: usize = 0;
    assert(files.take(0) =~= Seq::<RawFile>::empty());
    while k < m
        invariant
            m == files.len(),
            raw_files@ == files,
            raw_torrents@ == raws,
            k <= m,
            torrents@.len() == counts@.len(),
            with_files(slots_of(raws), files.take(k as int)) == Ok::<_, JoinFailure>(
                slots_model(torrents@, counts@),
            ),
        decreases m - k,
    {
        proof {
            assert(files.take(k + 1).drop_last() =~= files.take(k as int));
            assert(files.take(k + 1).last() == files[k as int]);
            lemma_with_files_failure_stays(slots_of(raws), files, k + 1);
        }
        let file = &raw_files[k];
        let ghost before = slots_model(torrents@, counts@);
        let found = find_slot(&torrents, &file.torrent_id);
        proof {
            let at = match found {
                Some(at) => at as int,
                None => -1,
            };
            assert forall|t: int| 0 <= t < before.len() implies (#[trigger] before[t]).torrent.id
                == torrents@[t].id@ by {}
            lemma_find_slot(before, file.torrent_id@, at);
        }
        let at = match found {
            Some(at) => at,
            None => {
                return Err(
                    GetTorrentsError::NoMatchingTorrent {
                        torrent_id: file.torrent_id.clone(),
                        path: file.path.clone(),
                    },
                );
            },
        };
        if torrents[at].files.contains_key(&file.path) {
            return Err(
                GetTorrentsError::DuplicatePath {
                    id: torrents[at].id.clone(),
                    path: file.path.clone(),
                },
            );
        }
        let mut torrent = torrents[at].clone();
        let _ = torrent.files.insert(file.path.clone(), file.size);
        torrents.push(torrent);
        let _ = torrents.swap_remove(at);
        assert(slots_model(torrents@, counts@) =~= with_file(before, *file)->Ok_0);
        k += 1;
    }
    assert(files.take(m as int) =~= files);
    let ghost slots = slots_model(torrents@, counts@);
    let count = torrents.len();
    let mut t: usize = 0;
    while t < count
        invariant
            count == torrents@.len(),
            torrents@.len() == counts@.len(),
            slots == slots_model(torrents@, counts@),
            raw_files@ == files,
            raw_torrents@ == raws,
            with_files(slots_of(raws), files) == Ok::<_, JoinFailure>(slots),
            t <= count,
            first_slot_failure(slots, t as int) is None,
        decreases count - t,
    {
        proof {
            lemma_slot_failure_stays(slots, t + 1, count as int);
        }
        let torrent = &torrents[t];
        let got = torrent.files.len();
        if got != counts[t] {
            return Err(
                GetTorrentsError::FileCountMismatch {
                    id: torrent.id.clone(),
                    got,
                    expected: counts[t],
                },
            );
        }
        let total = total_size(&torrent.files);
        if total != torrent.size as u128 {
            return Err(
                GetTorrentsError::SizeMismatch {
                    id: torrent.id.clone(),
                    got: total,
                    expected: torrent.size,
                },
            );
        }
        t += 1;
    }
    proof {
        assert(torrents_model(torrents@) =~= Seq::new(slots.len(), |i: int| slots[i].torrent));
        lemma_slots_of_distinct(raws);
        lemma_with_files_keeps(slots_of(raws), files);
        assert forall|i: int| 0 <= i < torrents@.len() implies {
            &&& sum_sizes((#[trigger] torrents@[i]).files.sizes()) == torrents@[i].size
            &&& torrents@[i].files.keys().len() == reported_count(raws, torrents@[i].id@)
        } by {
            lemma_slot_failure_none(slots, count as int, i);
            lemma_slot_at_own(slots_of(raws), i);
            assert(slots[i].torrent.id == slots_of(raws)[i].torrent.id);
        }
    }
    Ok(torrents)
}

pub proof fn lemma_with_files_failure_stays(slots: Seq<Slot>, files: Seq<RawFile>, n: int)
    requires
        0 <= n <= files.len(),
    ensures
        with_files(slots, files.take(n)) is Err ==> with_files(slots, files) == with_files(
            slots,
            files.take(n),
        ),
    decreases files.len() - n,
{
    if n < files.len() {
        lemma_with_files_failure_stays(slots, files, n + 1);
        assert(files.take(n + 1).drop_last() =~= files.take(n));
    } else {
        assert(files.take(n) =~= files);
    }
}

pub proof fn lemma_slot_failure_stays(slots: Seq<Slot>, n: int, m: int)
    requires
        0 <= n <= m,
    ensures
        first_slot_failure(slots, n) is Some ==> first_slot_failure(slots, m) == first_slot_failure(
            slots,
            n,
        ),
    decreases m - n,
{
    if n < m {
        lemma_slot_failure_stays(slots, n, m - 1);
    }
}

pub proof fn lemma_slot_failure_none(slots: Seq<Slot>, n: int, i: int)
    requires
        0 <= i < n,
        first_slot_failure(slots, n) is None,
    ensures
        slot_failure(slots[i]) is None,
    decreases n,
{
    if i < n - 1 {
        lemma_slot_failure_none(slots, n - 1, i);
    }
}

} // verus!
