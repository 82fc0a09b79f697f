//! The card cache: an in-memory map from card id to a snapshot of a loaded
//! card, validated for freshness against the filesystem on every access.
//!
//! The filesystem enters as a plain value: the storage collaborator's full
//! scan (`Vec<CardRecord>`), which tells which paths exist, with what
//! modification time, and what each card file holds. A cached snapshot is
//! served only while its recorded `last_modified` has kept up with the
//! file; otherwise the slot is reloaded or, when path or entry are gone,
//! the id is searched among all known cards and the slot healed or
//! dropped.

use vstd::prelude::*;

use crate::cache::{path_exists_in, scan_has_id, scan_wf, CardRecord};
use crate::common::CardId;

verus! {

/// The freshness classification of one cache slot against the filesystem,
/// evaluated anew on every access.
#[derive(Clone, Copy, Debug, PartialEq, Eq, Structural)]
pub enum CacheState {
    /// The cached snapshot is at least as new as the file: serve it.
    UpToDate,
    /// The file advanced past the snapshot: reload that one card.
    NeedsUpdate,
    /// The cached path no longer exists on disk.
    FileMissing,
    /// No cache entry for the id at all.
    MissingFromCache,
}

/// A shared, immutable-until-replaced snapshot of one loaded card: never
/// mutated in place, every update is a full replacement.
#[derive(Clone, Debug)]
pub struct CachedCard {
    pub id: CardId,
    pub dependency_ids: Vec<CardId>,
    pub finished: bool,
    pub path: String,
    pub last_modified: u64,
}

/// An unfinished card: only a front text, no answer yet. A card of this
/// kind is what keeps `finished` false on its record.
#[derive(Clone, Debug)]
pub struct UnfinishedCard {
    pub front: String,
}

impl UnfinishedCard {
    /// The text shown on the card's front.
    pub fn display_front(&self) -> (r: String)
        ensures
            r@ == self.front@,
    {
        self.front.clone()
    }

    /// An unfinished card declares no dependencies of its own.
    pub fn get_dependencies(&self) -> (r: Vec<CardId>)
        ensures
            r@.len() == 0,
    {
        Vec::new()
    }
}

/// A statement card: a fact stated without a question, kept for dependency
/// management.
#[derive(Clone, Debug)]
pub struct StatementCard {
    pub front: String,
}

impl StatementCard {
    /// The text of the stated fact.
    pub fn display_front(&self) -> (r: String)
        ensures
            r@ == self.front@,
    {
        self.front.clone()
    }

    /// A statement card declares no dependencies of its own.
    pub fn get_dependencies(&self) -> (r: Vec<CardId>)
        ensures
            r@.len() == 0,
    {
        Vec::new()
    }
}

/// A filesystem view is well formed when ids and paths are both unique:
/// each card exists once and a path names one file.
pub open spec fn fs_wf(fs: Seq<CardRecord>) -> bool {
    &&& scan_wf(fs)
    &&& forall|i: int, j: int|
        0 <= i < j < fs.len() ==> (#[trigger] fs[i]).path@ != (#[trigger] fs[j]).path@
}

/// The modification time of the file at `path` (meaningful when present).
pub open spec fn fs_mtime_of(fs: Seq<CardRecord>, path: Seq<char>) -> u64 {
    let j = choose|j: int| 0 <= j < fs.len() && fs[j].path@ == path;
    fs[j].last_modified
}

/// The record with this id (meaningful when present).
pub open spec fn fs_record_of(fs: Seq<CardRecord>, id: CardId) -> CardRecord {
    let j = choose|j: int| 0 <= j < fs.len() && fs[j].id == id;
    fs[j]
}

/// Whether two snapshots carry exactly the same data.
pub open spec fn same_snapshot(a: CachedCard, b: CachedCard) -> bool {
    &&& a.id == b.id
    &&& a.dependency_ids@ == b.dependency_ids@
    &&& a.finished == b.finished
    &&& a.path@ == b.path@
    &&& a.last_modified == b.last_modified
}

/// Whether a snapshot carries exactly the data of a record.
pub open spec fn snapshot_matches(c: CachedCard, rec: CardRecord) -> bool {
    &&& c.id == rec.id
    &&& c.dependency_ids@ == rec.dependency_ids@
    &&& c.finished == rec.finished
    &&& c.path@ == rec.path@
    &&& c.last_modified == rec.last_modified
}

impl CachedCard {
    /// A fresh snapshot of a card record read from disk.
    pub fn from_record(rec: &CardRecord) -> (r: CachedCard)
        ensures
            snapshot_matches(r, *rec),
    {
        CachedCard {
            id: rec.id,
            dependency_ids: crate::cache::clone_ids(&rec.dependency_ids),
            finished: rec.finished,
            path: rec.path.clone(),
            last_modified: rec.last_modified,
        }
    }

    /// The card's id.
    pub fn id(&self) -> (r: CardId)
        ensures
            r == self.id,
    {
        self.id
    }

    /// The ids this card declares a dependency on.
    pub fn dependency_ids(&self) -> (r: Vec<CardId>)
        ensures
            r@ == self.dependency_ids@,
    {
        crate::cache::clone_ids(&self.dependency_ids)
    }

    /// Whether the card is finished (not an unfinished stub).
    pub fn is_finished(&self) -> (r: bool)
        ensures
            r == self.finished,
    {
        self.finished
    }

    /// The card file's path.
    pub fn as_path(&self) -> (r: String)
        ensures
            r@ == self.path@,
    {
        self.path.clone()
    }

    /// The modification time recorded when this snapshot was loaded.
    pub fn last_modified(&self) -> (r: u64)
        ensures
            r == self.last_modified,
    {
        self.last_modified
    }

    /// An identical copy of this snapshot.
    pub fn duplicate(&self) -> (r: CachedCard)
        ensures
            same_snapshot(r, *self),
    {
        CachedCard {
            id: self.id,
            dependency_ids: crate::cache::clone_ids(&self.dependency_ids),
            finished: self.finished,
            path: self.path.clone(),
            last_modified: self.last_modified,
        }
    }

    /// Whether the backing file has been modified after this snapshot was
    /// loaded. A snapshot recorded as newer than its own file is a logic
    /// fault (every mutation re-reads from disk first), so that input is
    /// ruled out.
    pub fn is_outdated(&self, file_mtime: u64) -> (r: bool)
        requires
            self.last_modified <= file_mtime,
        ensures
            r == (self.last_modified < file_mtime),
    {
        self.last_modified < file_mtime
    }
}

/// The in-memory card cache: one snapshot slot per card id.
#[derive(Clone, Debug)]
pub struct CardCache {
    entries: Vec<CachedCard>,
}

impl View for CardCache {
    type V = Seq<CachedCard>;

    closed spec fn view(&self) -> Seq<CachedCard> {
        self.entries@
    }
}

/// The slot of the entry with this id (meaningful when present).
pub open spec fn slot_of(s: Seq<CachedCard>, id: CardId) -> int {
    choose|k: int| 0 <= k < s.len() && s[k].id == id
}

/// The cache after replacing (or, on a miss, inserting) the slot for `id`
/// with a fresh snapshot of `rec`; every other slot is untouched.
pub open spec fn replaced_with(
    before: Seq<CachedCard>,
    after: Seq<CachedCard>,
    id: CardId,
    rec: CardRecord,
) -> bool {
    if exists|k: int| 0 <= k < before.len() && before[k].id == id {
        &&& after.len() == before.len()
        &&& forall|k: int|
            0 <= k < before.len() && (#[trigger] before[k]).id != id ==> after[k] == before[k]
        &&& forall|k: int|
            0 <= k < before.len() && (#[trigger] before[k]).id == id ==> snapshot_matches(
                after[k],
                rec,
            )
    } else {
        &&& after.len() == before.len() + 1
        &&& forall|k: int| 0 <= k < before.len() ==> (#[trigger] after[k]) == before[k]
        &&& snapshot_matches(after[before.len() as int], rec)
    }
}

/// The cache after dropping the slot for `id`, if it was there.
pub open spec fn removed_id(before: Seq<CachedCard>, after: Seq<CachedCard>, id: CardId) -> bool {
    if exists|k: int| 0 <= k < before.len() && before[k].id == id {
        after == before.remove(slot_of(before, id))
    } else {
        after == before
    }
}

impl CardCache {
    /// Well-formed: one slot per id. Every method keeps this.
    pub open spec fn wf(&self) -> bool {
        forall|i: int, j: int|
            0 <= i < j < self@.len() ==> (#[trigger] self@[i]).id != (#[trigger] self@[j]).id
    }

    /// Whether the cache holds a slot for this id.
    pub open spec fn has_id(&self, id: CardId) -> bool {
        exists|k: int| 0 <= k < self@.len() && self@[k].id == id
    }

    /// The snapshot cached for this id (meaningful when present and `wf`).
    pub open spec fn entry_for(&self, id: CardId) -> CachedCard {
        self@[slot_of(self@, id)]
    }

    /// The four-state freshness classification for this id.
    pub open spec fn classify_spec(&self, id: CardId, fs: Seq<CardRecord>) -> CacheState {
        if !self.has_id(id) {
            CacheState::MissingFromCache
        } else if !path_exists_in(fs, self.entry_for(id).path@) {
            CacheState::FileMissing
        } else if self.entry_for(id).last_modified >= fs_mtime_of(fs, self.entry_for(id).path@) {
            CacheState::UpToDate
        } else {
            CacheState::NeedsUpdate
        }
    }

    /// An empty cache.
    pub fn new() -> (r: Self)
        ensures
            r@.len() == 0,
            r.wf(),
    {
        CardCache { entries: Vec::new() }
    }

    /// A copy of the snapshot in slot `k`.
    pub(crate) fn entry_duplicate(&self, k: usize) -> (r: CachedCard)
        requires
            k < self@.len(),
        ensures
            same_snapshot(r, self@[k as int]),
    {
        self.entries[k].duplicate()
    }

    /// With a well-formed cache, any slot holding `id` is the one
    /// `entry_for(id)` speaks of.
    pub(crate) proof fn lemma_entry_at(&self, id: CardId, k: int)
        requires
            self.wf(),
            0 <= k < self@.len(),
            self@[k].id == id,
        ensures
            self.entry_for(id) == self@[k],
            self.has_id(id),
            slot_of(self@, id) == k,
    {
        assert(self.has_id(id));
        let k2 = slot_of(self@, id);
        if k2 != k {
            if k2 < k {
                assert(self@[k2].id != self@[k].id);
            } else {
                assert(self@[k].id != self@[k2].id);
            }
        }
    }

    /// The slot holding `id`, if any.
    pub(crate) fn find(&self, id: CardId) -> (r: Option<usize>)
        ensures
            match r {
                Some(k) => 0 <= k < self@.len() && self@[k as int].id == id,
                None => !self.has_id(id),
            },
    {
        let mut i: usize = 0;
        while i < self.entries.len()
            invariant
                0 <= i <= self@.len(),
                forall|k: int| 0 <= k < i ==> (#[trigger] self@[k]).id != id,
            decreases self@.len() - i,
        {
            if self.entries[i].id.0 == id.0 {
                return Some(i);
            }
            i += 1;
        }
        None
    }

    /// The record at this path, if the file exists.
    pub(crate) fn find_record_by_path<'a>(fs: &'a Vec<CardRecord>, path: &String) -> (r: Option<
        &'a CardRecord,
    >)
        ensures
            match r {
                Some(rec) => exists|j: int|
                    0 <= j < fs@.len() && fs@[j] == *rec && rec.path@ == path@,
                None => !path_exists_in(fs@, path@),
            },
    {
        let mut j: usize = 0;
        while j < fs.len()
            invariant
                0 <= j <= fs@.len(),
                forall|t: int| 0 <= t < j ==> (#[trigger] fs@[t]).path@ != path@,
            decreases fs@.len() - j,
        {
            if fs[j].path.eq(path) {
                return Some(&fs[j]);
            }
            j += 1;
        }
        None
    }

    /// The record with this id, if the card exists on disk.
    pub(crate) fn find_record_by_id<'a>(fs: &'a Vec<CardRecord>, id: CardId) -> (r: Option<&'a CardRecord>)
        requires
            scan_wf(fs@),
        ensures
            match r {
                Some(rec) => scan_has_id(fs@, id) && *rec == fs_record_of(fs@, id),
                None => !scan_has_id(fs@, id),
            },
    {
        let mut j: usize = 0;
        while j < fs.len()
            invariant
                0 <= j <= fs@.len(),
                scan_wf(fs@),
                forall|t: int| 0 <= t < j ==> (#[trigger] fs@[t]).id != id,
            decreases fs@.len() - j,
        {
            if fs[j].id.0 == id.0 {
                proof {
                    let j2 = choose|j2: int| 0 <= j2 < fs@.len() && fs@[j2].id == id;
                    if j2 != j {
                        if j2 < j {
                            assert(fs@[j2].id != fs@[j as int].id);
                        } else {
                            assert(fs@[j as int].id != fs@[j2].id);
                        }
                    }
                }
                return Some(&fs[j]);
            }
            j += 1;
        }
        None
    }

    /// The freshness of the slot for `id` against the filesystem, decided
    /// anew on this access.
    pub fn classify(&self, id: CardId, fs: &Vec<CardRecord>) -> (r: CacheState)
        requires
            fs_wf(fs@),
            self.wf(),
        ensures
            r == self.classify_spec(id, fs@),
    {
        match self.find(id) {
            None => CacheState::MissingFromCache,
            Some(k) => {
                proof {
                    self.lemma_entry_at(id, k as int);
                }
                match Self::find_record_by_path(fs, &self.entries[k].path) {
                    None => CacheState::FileMissing,
                    Some(rec) => {
                        proof {
                            let j = choose|j: int|
                                0 <= j < fs@.len() && fs@[j] == *rec && rec.path@
                                    == self@[k as int].path@;
                            let j2 = choose|j2: int|
                                0 <= j2 < fs@.len() && fs@[j2].path@ == self@[k as int].path@;
                            if j != j2 {
                                if j < j2 {
                                    assert(fs@[j].path@ != fs@[j2].path@);
                                } else {
                                    assert(fs@[j2].path@ != fs@[j].path@);
                                }
                            }
                            assert(rec.last_modified == fs_mtime_of(fs@, self@[k as int].path@));
                        }
                        if self.entries[k].last_modified >= rec.last_modified {
                            CacheState::UpToDate
                        } else {
                            CacheState::NeedsUpdate
                        }
                    },
                }
            },
        }
    }

    /// Looks a card up, healing the cache as needed: a fresh slot is served
    /// unchanged; a stale slot is reloaded from disk and replaced; a
    /// missing file or slot falls back to a search among all known cards;
    /// an id not found even then does not exist, and its dead slot is
    /// dropped.
    pub fn try_get(&mut self, id: CardId, fs: &Vec<CardRecord>) -> (r: Option<CachedCard>)
        requires
            fs_wf(fs@),
            old(self).wf(),
        ensures
            final(self).wf(),
            old(self).classify_spec(id, fs@) == CacheState::UpToDate ==> *final(self) == *old(self)
                && (r matches Some(c) && same_snapshot(c, old(self).entry_for(id))),
            old(self).classify_spec(id, fs@) != CacheState::UpToDate && scan_has_id(fs@, id) ==> (
            r matches Some(c) && snapshot_matches(c, fs_record_of(fs@, id))) && replaced_with(
                old(self)@,
                final(self)@,
                id,
                fs_record_of(fs@, id),
            ),
            old(self).classify_spec(id, fs@) != CacheState::UpToDate && !scan_has_id(fs@, id)
                ==> r is None && removed_id(old(self)@, final(self)@, id),
    {
        let state = self.classify(id, fs);
        match state {
            CacheState::UpToDate => {
                match self.find(id) {
                    Some(k) => {
                        proof {
                            self.lemma_entry_at(id, k as int);
                        }
                        Some(self.entries[k].duplicate())
                    },
                    None => {
                        proof {
                            assert(old(self).has_id(id));
                            assert(false);
                        }
                        None
                    },
                }
            },
            _ => {
                match Self::find_record_by_id(fs, id) {
                    Some(rec) => {
                        let snap = CachedCard::from_record(rec);
                        let out = snap.duplicate();
                        proof {
                            assert(snapshot_matches(snap, fs_record_of(fs@, id)));
                        }
                        match self.find(id) {
                            Some(k) => {
                                proof {
                                    self.lemma_entry_at(id, k as int);
                                }
                                self.entries.set(k, snap);
                            },
                            None => {
                                self.entries.push(snap);
                            },
                        }
                        Some(out)
                    },
                    None => {
                        match self.find(id) {
                            Some(k) => {
                                proof {
                                    self.lemma_entry_at(id, k as int);
                                }
                                self.entries.remove(k);
                            },
                            None => {},
                        }
                        None
                    },
                }
            },
        }
    }

    /// Clones the card out of the cache (copy-on-read), healing first.
    pub fn get_owned(&mut self, id: CardId, fs: &Vec<CardRecord>) -> (r: Option<CachedCard>)
        requires
            fs_wf(fs@),
            old(self).wf(),
        ensures
            final(self).wf(),
            old(self).classify_spec(id, fs@) == CacheState::UpToDate ==> *final(self) == *old(self)
                && (r matches Some(c) && same_snapshot(c, old(self).entry_for(id))),
            old(self).classify_spec(id, fs@) != CacheState::UpToDate && scan_has_id(fs@, id) ==> (
            r matches Some(c) && snapshot_matches(c, fs_record_of(fs@, id))),
            old(self).classify_spec(id, fs@) != CacheState::UpToDate && !scan_has_id(fs@, id)
                ==> r is None,
    {
        self.try_get(id, fs)
    }

    /// The modification time that orders a known card: the cached
    /// `last_modified` while the slot is fresh, the live filesystem stat
    /// when the file has moved ahead, and the cached value again when the
    /// file is gone and there is nothing to stat.
    pub open spec fn effective_mtime_spec(&self, fs: Seq<CardRecord>, id: CardId) -> u64 {
        let e = self.entry_for(id);
        if path_exists_in(fs, e.path@) {
            if e.last_modified >= fs_mtime_of(fs, e.path@) {
                e.last_modified
            } else {
                fs_mtime_of(fs, e.path@)
            }
        } else {
            e.last_modified
        }
    }

    /// Every known id, ordered most-recently-modified first: a caller gets
    /// a "recently touched" ordering without forcing a resync.
    pub fn all_ids(&self, fs: &Vec<CardRecord>) -> (r: Vec<CardId>)
        requires
            fs_wf(fs@),
            self.wf(),
        ensures
            r@.len() == self@.len(),
            r@.no_duplicates(),
            forall|c: CardId| #[trigger] r@.contains(c) <==> self.has_id(c),
            forall|i: int, j: int|
                0 <= i < j < r@.len() ==> self.effective_mtime_spec(fs@, r@[i])
                    >= self.effective_mtime_spec(fs@, r@[j]),
    {
        let n = self.entries.len();
        let mut rest: Vec<(u64, CardId)> = Vec::new();
        let mut k: usize = 0;
        while k < n
            invariant
                0 <= k <= n,
                n == self@.len(),
                fs_wf(fs@),
                self.wf(),
                rest@.len() == k,
                forall|t: int| 0 <= t < k ==> (#[trigger] rest@[t]).1 == self@[t].id,
                forall|t: int|
                    0 <= t < k ==> (#[trigger] rest@[t]).0 == self.effective_mtime_spec(
                        fs@,
                        rest@[t].1,
                    ),
            decreases n - k,
        {
            proof {
                self.lemma_entry_at(self@[k as int].id, k as int);
            }
            let key: u64 = match Self::find_record_by_path(fs, &self.entries[k].path) {
                Some(rec) => {
                    proof {
                        let j = choose|j: int|
                            0 <= j < fs@.len() && fs@[j] == *rec && rec.path@
                                == self@[k as int].path@;
                        let j2 = choose|j2: int|
                            0 <= j2 < fs@.len() && fs@[j2].path@ == self@[k as int].path@;
                        if j != j2 {
                            if j < j2 {
                                assert(fs@[j].path@ != fs@[j2].path@);
                            } else {
                                assert(fs@[j2].path@ != fs@[j].path@);
                            }
                        }
                        assert(rec.last_modified == fs_mtime_of(fs@, self@[k as int].path@));
                    }
                    if self.entries[k].last_modified >= rec.last_modified {
                        self.entries[k].last_modified
                    } else {
                        rec.last_modified
                    }
                },
                None => self.entries[k].last_modified,
            };
            rest.push((key, self.entries[k].id));
            k += 1;
        }
        let ghost total = self@.len();
        let mut out: Vec<CardId> = Vec::new();
        proof {
            assert forall|c: CardId| self.has_id(c) implies (out@.contains(c) || exists|t: int|
                0 <= t < rest@.len() && (#[trigger] rest@[t]).1 == c) by {
                let k0 = choose|k0: int| 0 <= k0 < self@.len() && self@[k0].id == c;
                assert(rest@[k0].1 == c);
            };
            assert forall|t1: int, t2: int| 0 <= t1 < t2 < rest@.len() implies (#[trigger] rest@[t1]).1
                != (#[trigger] rest@[t2]).1 by {
                assert(self@[t1].id != self@[t2].id);
            };
        }
        while rest.len() > 0
            invariant
                fs_wf(fs@),
                self.wf(),
                out@.len() + rest@.len() == total,
                total == self@.len(),
                out@.no_duplicates(),
                forall|t: int| 0 <= t < rest@.len() ==> !out@.contains((#[trigger] rest@[t]).1),
                forall|t1: int, t2: int|
                    0 <= t1 < t2 < rest@.len() ==> (#[trigger] rest@[t1]).1 != (
                    #[trigger] rest@[t2]).1,
                forall|t: int|
                    0 <= t < rest@.len() ==> self.has_id((#[trigger] rest@[t]).1)
                        && rest@[t].0 == self.effective_mtime_spec(fs@, rest@[t].1),
                forall|c: CardId|
                    self.has_id(c) ==> (out@.contains(c) || exists|t: int|
                        0 <= t < rest@.len() && (#[trigger] rest@[t]).1 == c),
                forall|c: CardId| #[trigger] out@.contains(c) ==> self.has_id(c),
                forall|i: int, j: int|
                    0 <= i < j < out@.len() ==> self.effective_mtime_spec(fs@, out@[i])
                        >= self.effective_mtime_spec(fs@, out@[j]),
                forall|i: int, t: int|
                    #![trigger out@[i], rest@[t]]
                    0 <= i < out@.len() && 0 <= t < rest@.len() ==> self.effective_mtime_spec(
                        fs@,
                        out@[i],
                    ) >= rest@[t].0,
            decreases rest@.len(),
        {
            let mut m: usize = 0;
            let mut q: usize = 1;
            while q < rest.len()
                invariant
                    0 <= m < rest@.len(),
                    m < q,
                    forall|t: int| 0 <= t < q ==> rest@[m as int].0 >= (#[trigger] rest@[t]).0,
                decreases rest@.len() - q,
            {
                if rest[q].0 > rest[m].0 {
                    m = q;
                }
                q += 1;
            }
            let ghost pre_rest = rest@;
            let ghost pre_out = out@;
            let x = rest.remove(m);
            out.push(x.1);
            proof {
                broadcast use vstd::seq_lib::lemma_seq_contains_after_push;

                assert(x == pre_rest[m as int]);
                assert(rest@ == pre_rest.remove(m as int));
                assert(out@ == pre_out.push(x.1));
                assert forall|t: int| 0 <= t < rest@.len() implies !out@.contains(
                    (#[trigger] rest@[t]).1,
                ) by {
                    if t < m {
                        assert(rest@[t] == pre_rest[t]);
                    } else {
                        assert(rest@[t] == pre_rest[t + 1]);
                    }
                };
                assert forall|c: CardId| self.has_id(c) implies (out@.contains(c) || exists|t: int|
                    0 <= t < rest@.len() && (#[trigger] rest@[t]).1 == c) by {
                    if pre_out.contains(c) {
                    } else {
                        let t0 = choose|t0: int|
                            0 <= t0 < pre_rest.len() && (#[trigger] pre_rest[t0]).1 == c;
                        if t0 == m {
                            assert(out@.contains(c));
                        } else if t0 < m {
                            assert(rest@[t0] == pre_rest[t0]);
                            assert(rest@[t0].1 == c);
                        } else {
                            assert(rest@[t0 - 1] == pre_rest[t0]);
                            assert(rest@[t0 - 1].1 == c);
                        }
                    }
                };
                assert forall|i: int, t: int|
                    #![trigger out@[i], rest@[t]]
                    0 <= i < out@.len() && 0 <= t < rest@.len() implies self.effective_mtime_spec(
                    fs@,
                    out@[i],
                ) >= rest@[t].0 by {
                    let pt = if t < m {
                        t
                    } else {
                        t + 1
                    };
                    assert(rest@[t] == pre_rest[pt]);
                    assert(pre_rest[m as int].0 >= pre_rest[pt].0);
                    if i < pre_out.len() {
                        assert(out@[i] == pre_out[i]);
                    } else {
                        assert(out@[i] == x.1);
                        assert(self.effective_mtime_spec(fs@, x.1) == x.0);
                    }
                };
                assert forall|i: int, j: int| 0 <= i < j < out@.len() implies
                    self.effective_mtime_spec(fs@, out@[i]) >= self.effective_mtime_spec(
                    fs@,
                    out@[j],
                ) by {
                    if j < pre_out.len() {
                        assert(out@[i] == pre_out[i] && out@[j] == pre_out[j]);
                    } else {
                        assert(out@[j] == x.1);
                        assert(out@[i] == pre_out[i]);
                        assert(self.effective_mtime_spec(fs@, x.1) == x.0);
                        assert(pre_rest[m as int].0 == x.0);
                    }
                };
            }
        }
        out
    }

    /// A shared borrow of the cached snapshot, healing first: the handle
    /// serves the pre-replacement state to nobody — it always reflects the
    /// slot as just validated.
    pub fn get_ref<'a>(&'a mut self, id: CardId, fs: &Vec<CardRecord>) -> (r: Option<
        &'a CachedCard,
    >)
        requires
            fs_wf(fs@),
            old(self).wf(),
        ensures
            final(self).wf(),
            match r {
                Some(c) => final(self).has_id(id) && *c == final(self).entry_for(id) && (
                old(self).classify_spec(id, fs@) == CacheState::UpToDate ==> *c == old(
                    self,
                ).entry_for(id)) && (old(self).classify_spec(id, fs@) != CacheState::UpToDate
                    ==> snapshot_matches(*c, fs_record_of(fs@, id))),
                None => !scan_has_id(fs@, id) && old(self).classify_spec(id, fs@)
                    != CacheState::UpToDate,
            },
    {
        let healed = self.try_get(id, fs);
        match healed {
            None => None,
            Some(_) => {
                match self.find(id) {
                    Some(k) => {
                        proof {
                            self.lemma_entry_at(id, k as int);
                        }
                        Some(&self.entries[k])
                    },
                    None => {
                        proof {
                            let ghost pre = *old(self);
                            if pre.classify_spec(id, fs@) == CacheState::UpToDate {
                                assert(self.has_id(id));
                            } else {
                                assert(scan_has_id(fs@, id));
                                assert(replaced_with(pre@, self@, id, fs_record_of(fs@, id)));
                                if exists|k: int| 0 <= k < pre@.len() && pre@[k].id == id {
                                    let k = choose|k: int|
                                        0 <= k < pre@.len() && pre@[k].id == id;
                                    assert(self@[k].id == id);
                                } else {
                                    assert(self@[pre@.len() as int].id == id);
                                }
                                assert(self.has_id(id));
                            }
                        }
                        None
                    },
                }
            },
        }
    }
}

} // verus!
