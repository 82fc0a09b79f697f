//! The card location index: maps a card id to its on-disk path and to the
//! set of cards that depend on it ("dependents", the reverse index).
//!
//! The index self-heals: a lookup that misses, or that hits an entry whose
//! path no longer exists, triggers one full rebuild from a scan of every
//! card and is then retried once. The storage collaborator supplies that
//! scan as a plain vector of records; a record's presence in the scan is
//! what "the file exists" means here. Persisting entries back to disk is
//! the caller's side of the boundary.

use vstd::prelude::*;

use crate::common::CardId;

verus! {

/// Everything the storage collaborator reports about one card on disk: its
/// id, file path, declared dependencies, whether the card is finished, and
/// the file's modification time (unix seconds).
#[derive(Clone, Debug)]
pub struct CardRecord {
    pub id: CardId,
    pub path: String,
    pub dependency_ids: Vec<CardId>,
    pub finished: bool,
    pub last_modified: u64,
}

/// One persisted side-table record: a card's path and its dependents.
#[derive(Clone, Debug)]
pub struct LocationEntry {
    pub id: CardId,
    pub path: String,
    pub dependents: Vec<CardId>,
}

/// A scan is well formed when every card id occurs at most once: ids are
/// globally unique, and the storage collaborator reports each card once.
pub open spec fn scan_wf(scan: Seq<CardRecord>) -> bool {
    forall|i: int, j: int| 0 <= i < j < scan.len() ==> scan[i].id != scan[j].id
}

/// Whether the scan holds a card with this id.
pub open spec fn scan_has_id(scan: Seq<CardRecord>, id: CardId) -> bool {
    exists|j: int| 0 <= j < scan.len() && scan[j].id == id
}

/// The path of the scan record with this id (meaningful when present).
pub open spec fn scan_path_of(scan: Seq<CardRecord>, id: CardId) -> Seq<char> {
    let j = choose|j: int| 0 <= j < scan.len() && scan[j].id == id;
    scan[j].path@
}

/// Whether the scan holds a card file at this path.
pub open spec fn path_exists_in(scan: Seq<CardRecord>, path: Seq<char>) -> bool {
    exists|j: int| 0 <= j < scan.len() && scan[j].path@ == path
}

/// Whether card `c` declares a dependency on card `of` somewhere in the
/// scan: then `c` is a dependent of `of`.
pub open spec fn is_dependent_in(scan: Seq<CardRecord>, of: CardId, c: CardId) -> bool {
    exists|j: int|
        0 <= j < scan.len() && scan[j].id == c && scan[j].dependency_ids@.contains(of)
}

/// The entries mirror the scan slot by slot: same ids, same paths, and
/// every dependents list free of duplicates.
pub open spec fn entries_match_scan(entries: Seq<LocationEntry>, scan: Seq<CardRecord>) -> bool {
    &&& entries.len() == scan.len()
    &&& forall|k: int| 0 <= k < entries.len() ==> (#[trigger] entries[k]).id == scan[k].id
    &&& forall|k: int| 0 <= k < entries.len() ==> (#[trigger] entries[k]).path@ == scan[k].path@
    &&& forall|k: int|
        0 <= k < entries.len() ==> (#[trigger] entries[k]).dependents@.no_duplicates()
}

/// The exact outcome of a full rebuild: entries mirror the scan, and each
/// entry's dependents are precisely the scan cards that declare a
/// dependency on it.
pub open spec fn synced(entries: Seq<LocationEntry>, scan: Seq<CardRecord>) -> bool {
    &&& entries_match_scan(entries, scan)
    &&& forall|k: int, c: CardId|
        0 <= k < entries.len() ==> (#[trigger] entries[k].dependents@.contains(c)
            <==> is_dependent_in(scan, entries[k].id, c))
}

/// A full rebuild followed by registering `dependent` under `of`.
pub open spec fn synced_plus(
    entries: Seq<LocationEntry>,
    scan: Seq<CardRecord>,
    of: CardId,
    dependent: CardId,
) -> bool {
    &&& entries_match_scan(entries, scan)
    &&& forall|k: int, c: CardId|
        0 <= k < entries.len() ==> (#[trigger] entries[k].dependents@.contains(c)
            <==> (is_dependent_in(scan, entries[k].id, c) || (entries[k].id == of && c
                == dependent)))
}

/// Whether `v` holds `id`.
pub(crate) fn contains_id(v: &Vec<CardId>, id: CardId) -> (r: bool)
    ensures
        r == v@.contains(id),
{
    let mut i: usize = 0;
    while i < v.len()
        invariant
            0 <= i <= v@.len(),
            forall|k: int| 0 <= k < i ==> v@[k] != id,
        decreases v@.len() - i,
    {
        if v[i].0 == id.0 {
            return true;
        }
        i += 1;
    }
    false
}

/// The in-memory location index, one entry per known card.
#[derive(Clone, Debug)]
pub struct CardIndex {
    entries: Vec<LocationEntry>,
}

impl View for CardIndex {
    type V = Seq<LocationEntry>;

    closed spec fn view(&self) -> Seq<LocationEntry> {
        self.entries@
    }
}

impl CardIndex {
    /// Well-formed: entry ids are unique and no dependents list repeats an
    /// id. Every method keeps this.
    pub open spec fn wf(&self) -> bool {
        &&& forall|i: int, j: int|
            0 <= i < j < self@.len() ==> (#[trigger] self@[i]).id != (#[trigger] self@[j]).id
        &&& forall|k: int| 0 <= k < self@.len() ==> (#[trigger] self@[k]).dependents@.no_duplicates()
    }

    /// Whether the index holds an entry for this id.
    pub open spec fn has_id(&self, id: CardId) -> bool {
        exists|k: int| 0 <= k < self@.len() && self@[k].id == id
    }

    /// The entry for this id (meaningful when present and `wf`).
    pub open spec fn entry_for(&self, id: CardId) -> LocationEntry {
        let k = choose|k: int| 0 <= k < self@.len() && self@[k].id == id;
        self@[k]
    }

    /// An entry is valid when it exists and its recorded path still exists
    /// on disk (that is, in the scan): a dangling entry is treated as
    /// absent and heals through a resync.
    pub open spec fn valid_entry(&self, id: CardId, scan: Seq<CardRecord>) -> bool {
        self.has_id(id) && path_exists_in(scan, self.entry_for(id).path@)
    }

    /// An empty index.
    pub fn new() -> (r: Self)
        ensures
            r@.len() == 0,
            r.wf(),
    {
        CardIndex { entries: Vec::new() }
    }

    /// The entries as stored, for persistence.
    pub fn entries(&self) -> (r: &Vec<LocationEntry>)
        ensures
            r@ == self@,
    {
        &self.entries
    }

    /// The slot holding `id`, if any.
    fn find(&self, id: CardId) -> (r: Option<usize>)
        ensures
            match r {
                Some(k) => 0 <= k < self@.len() && self@[k as int].id == id,
                None => !self.has_id(id),
            },
    {
        let mut i: usize = 0;
        while i < self.entries.len()
            invariant
                0 <= i <= self@.len(),
                forall|k: int| 0 <= k < i ==> (#[trigger] self@[k]).id != id,
            decreases self@.len() - i,
        {
            if self.entries[i].id.0 == id.0 {
                return Some(i);
            }
            i += 1;
        }
        None
    }

    /// Rebuilds the entire index from scratch out of a full scan: one entry
    /// per scanned card, seeded with its path, and every card's id appended
    /// to the dependents of each of its declared dependencies.
    pub fn sync_cache(&mut self, scan: &Vec<CardRecord>)
        requires
            scan_wf(scan@),
        ensures
            synced(final(self)@, scan@),
            final(self).wf(),
    {
        let mut entries: Vec<LocationEntry> = Vec::new();
        let n = scan.len();
        let mut k: usize = 0;
        while k < n
            invariant
                0 <= k <= n,
                n == scan@.len(),
                scan_wf(scan@),
                entries@.len() == k,
                forall|t: int| 0 <= t < k ==> (#[trigger] entries@[t]).id == scan@[t].id,
                forall|t: int| 0 <= t < k ==> (#[trigger] entries@[t]).path@ == scan@[t].path@,
                forall|t: int|
                    0 <= t < k ==> (#[trigger] entries@[t]).dependents@.no_duplicates(),
                forall|t: int, c: CardId|
                    0 <= t < k ==> (#[trigger] entries@[t].dependents@.contains(c)
                        <==> is_dependent_in(scan@, scan@[t].id, c)),
            decreases n - k,
        {
            let target = scan[k].id;
            let mut dependents: Vec<CardId> = Vec::new();
            let mut j: usize = 0;
            while j < n
                invariant
                    0 <= j <= n,
                    n == scan@.len(),
                    scan_wf(scan@),
                    forall|c: CardId|
                        dependents@.contains(c) <==> (exists|t: int|
                            0 <= t < j && (#[trigger] scan@[t]).id == c
                                && scan@[t].dependency_ids@.contains(target)),
                    dependents@.no_duplicates(),
                decreases n - j,
            {
                let ghost pre = dependents@;
                let hit = contains_id(&scan[j].dependency_ids, target);
                if hit {
                    proof {
                        if pre.contains(scan@[j as int].id) {
                            let t = choose|t: int|
                                0 <= t < j && (#[trigger] scan@[t]).id == scan@[j as int].id
                                    && scan@[t].dependency_ids@.contains(target);
                            assert(scan@[t].id == scan@[j as int].id && t < j);
                            assert(false);
                        }
                    }
                    dependents.push(scan[j].id);
                    proof {
                        let pushed = scan@[j as int].id;
                        assert(dependents@ == pre.push(pushed));
                        assert(dependents@[pre.len() as int] == pushed);
                        assert forall|i1: int, j1: int|
                            0 <= i1 < j1 < dependents@.len() implies dependents@[i1]
                            != dependents@[j1] by {
                            if j1 < pre.len() {
                                assert(pre[i1] == dependents@[i1] && pre[j1] == dependents@[j1]);
                            } else {
                                assert(dependents@[j1] == pushed);
                                assert(pre[i1] == dependents@[i1]);
                                assert(pre.contains(pre[i1]));
                            }
                        };
                    }
                }
                proof {
                    let jj = j as int;
                    assert forall|c: CardId| dependents@.contains(c) implies (exists|t: int|
                        0 <= t < jj + 1 && (#[trigger] scan@[t]).id == c
                            && scan@[t].dependency_ids@.contains(target)) by {
                        let idx = choose|idx: int|
                            0 <= idx < dependents@.len() && dependents@[idx] == c;
                        if idx < pre.len() {
                            assert(pre[idx] == c);
                            assert(pre.contains(c));
                            let t = choose|t: int|
                                0 <= t < jj && (#[trigger] scan@[t]).id == c
                                    && scan@[t].dependency_ids@.contains(target);
                            assert(0 <= t < jj + 1 && scan@[t].id == c
                                && scan@[t].dependency_ids@.contains(target));
                        } else {
                            assert(c == scan@[jj].id);
                            assert(scan@[jj].dependency_ids@.contains(target));
                            assert(0 <= jj < jj + 1 && scan@[jj].id == c
                                && scan@[jj].dependency_ids@.contains(target));
                        }
                    };
                    assert forall|c: CardId| (exists|t: int|
                        0 <= t < jj + 1 && (#[trigger] scan@[t]).id == c
                            && scan@[t].dependency_ids@.contains(target)) implies dependents@.contains(
                        c,
                    ) by {
                        let t = choose|t: int|
                            0 <= t < jj + 1 && (#[trigger] scan@[t]).id == c
                                && scan@[t].dependency_ids@.contains(target);
                        if t < jj {
                            assert(pre.contains(c));
                            let idx = choose|idx: int| 0 <= idx < pre.len() && pre[idx] == c;
                            assert(dependents@[idx] == c);
                            assert(dependents@.contains(c));
                        } else {
                            assert(t == jj);
                            assert(scan@[jj].dependency_ids@.contains(target));
                            assert(hit);
                            assert(dependents@[pre.len() as int] == c);
                            assert(dependents@.contains(c));
                        }
                    };
                }
                j += 1;
            }
            entries.push(
                LocationEntry { id: scan[k].id, path: scan[k].path.clone(), dependents },
            );
            k += 1;
        }
        self.entries = entries;
    }
}

/// A copy of a vector of card ids.
pub fn clone_ids(v: &Vec<CardId>) -> (r: Vec<CardId>)
    ensures
        r@ == v@,
{
    let mut r: Vec<CardId> = Vec::new();
    let mut i: usize = 0;
    while i < v.len()
        invariant
            0 <= i <= v@.len(),
            r@ == v@.take(i as int),
        decreases v@.len() - i,
    {
        r.push(v[i]);
        proof {
            assert(v@.take(i + 1) =~= v@.take(i as int).push(v@[i as int]));
        }
        i += 1;
    }
    proof {
        assert(v@.take(v@.len() as int) =~= v@);
    }
    r
}

/// Whether the scan holds a card file at exactly this path.
fn path_in_scan(scan: &Vec<CardRecord>, path: &String) -> (r: bool)
    ensures
        r == path_exists_in(scan@, path@),
{
    let mut j: usize = 0;
    while j < scan.len()
        invariant
            0 <= j <= scan@.len(),
            forall|t: int| 0 <= t < j ==> (#[trigger] scan@[t]).path@ != path@,
        decreases scan@.len() - j,
    {
        if scan[j].path.eq(path) {
            return true;
        }
        j += 1;
    }
    false
}

/// The index after registering `dependent` under the entry for `of`: that
/// entry's dependents gain `dependent` (as a set), everything else is
/// untouched.
pub open spec fn added_dependent(
    before: Seq<LocationEntry>,
    after: Seq<LocationEntry>,
    of: CardId,
    dependent: CardId,
) -> bool {
    &&& after.len() == before.len()
    &&& forall|k: int|
        0 <= k < before.len() && (#[trigger] before[k]).id != of ==> after[k] == before[k]
    &&& forall|k: int|
        0 <= k < before.len() && (#[trigger] before[k]).id == of ==> after[k].id == before[k].id
            && after[k].path@ == before[k].path@ && after[k].dependents@.no_duplicates()
    &&& forall|k: int, c: CardId|
        0 <= k < before.len() && before[k].id == of ==> (#[trigger] after[k].dependents@.contains(
            c,
        ) <==> (before[k].dependents@.contains(c) || c == dependent))
}

impl CardIndex {
    /// With a well-formed index, any slot holding `id` is the entry
    /// `entry_for(id)` speaks of.
    proof fn lemma_entry_at(&self, id: CardId, k: int)
        requires
            self.wf(),
            0 <= k < self@.len(),
            self@[k].id == id,
        ensures
            self.entry_for(id) == self@[k],
            self.has_id(id),
    {
        assert(self.has_id(id));
        let k2 = choose|k2: int| 0 <= k2 < self@.len() && self@[k2].id == id;
        if k2 != k {
            if k2 < k {
                assert(self@[k2].id != self@[k].id);
            } else {
                assert(self@[k].id != self@[k2].id);
            }
        }
    }

    /// Looks up the cached location of a card. A hit whose path still
    /// exists is returned as is; on a miss or a dangling path the whole
    /// index is rebuilt from the scan once and the lookup retried exactly
    /// once: an id still missing after that does not exist.
    pub fn path_from_id(&mut self, id: CardId, scan: &Vec<CardRecord>) -> (r: Option<String>)
        requires
            scan_wf(scan@),
            old(self).wf(),
        ensures
            final(self).wf(),
            old(self).valid_entry(id, scan@) ==> *final(self) == *old(self) && (r matches Some(p)
                && p@ == old(self).entry_for(id).path@),
            !old(self).valid_entry(id, scan@) ==> synced(final(self)@, scan@),
            !old(self).valid_entry(id, scan@) && scan_has_id(scan@, id) ==> (r matches Some(p)
                && p@ == scan_path_of(scan@, id)),
            !old(self).valid_entry(id, scan@) && !scan_has_id(scan@, id) ==> r is None,
    {
        match self.find(id) {
            Some(k) => {
                if path_in_scan(scan, &self.entries[k].path) {
                    proof {
                        self.lemma_entry_at(id, k as int);
                    }
                    return Some(self.entries[k].path.clone());
                }
                proof {
                    self.lemma_entry_at(id, k as int);
                }
            },
            None => {},
        }
        self.sync_cache(scan);
        match self.find(id) {
            Some(k) => {
                proof {
                    let j = choose|j: int| 0 <= j < scan@.len() && scan@[j].id == id;
                    assert(self@[k as int].id == scan@[k as int].id);
                    if j != k as int {
                        if j < k as int {
                            assert(scan@[j].id != scan@[k as int].id);
                        } else {
                            assert(scan@[k as int].id != scan@[j].id);
                        }
                    }
                    assert(self@[k as int].path@ == scan_path_of(scan@, id));
                }
                Some(self.entries[k].path.clone())
            },
            None => {
                proof {
                    if scan_has_id(scan@, id) {
                        let j = choose|j: int| 0 <= j < scan@.len() && scan@[j].id == id;
                        assert(self@[j].id == scan@[j].id);
                        assert(self.has_id(id));
                    }
                }
                None
            },
        }
    }

    /// The dependents recorded for a card: from the cached entry when it is
    /// valid, else from a fresh rebuild; an id unknown even after the
    /// rebuild has no dependents.
    pub fn dependents_from_id(&mut self, id: CardId, scan: &Vec<CardRecord>) -> (r: Vec<CardId>)
        requires
            scan_wf(scan@),
            old(self).wf(),
        ensures
            final(self).wf(),
            r@.no_duplicates(),
            old(self).valid_entry(id, scan@) ==> *final(self) == *old(self) && r@ == old(
                self,
            ).entry_for(id).dependents@,
            !old(self).valid_entry(id, scan@) ==> synced(final(self)@, scan@),
            !old(self).valid_entry(id, scan@) ==> (forall|c: CardId|
                #[trigger] r@.contains(c) <==> (scan_has_id(scan@, id) && is_dependent_in(
                    scan@,
                    id,
                    c,
                ))),
    {
        match self.find(id) {
            Some(k) => {
                if path_in_scan(scan, &self.entries[k].path) {
                    proof {
                        self.lemma_entry_at(id, k as int);
                    }
                    return clone_ids(&self.entries[k].dependents);
                }
                proof {
                    self.lemma_entry_at(id, k as int);
                }
            },
            None => {},
        }
        self.sync_cache(scan);
        match self.find(id) {
            Some(k) => {
                proof {
                    assert(scan@[k as int].id == id);
                    assert(scan_has_id(scan@, id));
                }
                clone_ids(&self.entries[k].dependents)
            },
            None => {
                proof {
                    if scan_has_id(scan@, id) {
                        let j = choose|j: int| 0 <= j < scan@.len() && scan@[j].id == id;
                        assert(self@[j].id == scan@[j].id);
                        assert(self.has_id(id));
                    }
                }
                Vec::new()
            },
        }
    }

    /// Registers `dependent` as depending on `card`. A card is never its
    /// own dependent, so equal arguments are a no-op; a duplicate
    /// registration changes nothing; a miss or dangling entry for `card`
    /// first heals the index with one rebuild from the scan. Returns false
    /// only when `card` is unknown even after that rebuild.
    pub fn add_dependent(&mut self, card: CardId, dependent: CardId, scan: &Vec<CardRecord>) -> (r:
        bool)
        requires
            scan_wf(scan@),
            old(self).wf(),
        ensures
            final(self).wf(),
            card == dependent ==> *final(self) == *old(self) && r == true,
            card != dependent && old(self).valid_entry(card, scan@) ==> r == true
                && added_dependent(old(self)@, final(self)@, card, dependent),
            card != dependent && !old(self).valid_entry(card, scan@) && scan_has_id(scan@, card)
                ==> r == true && synced_plus(final(self)@, scan@, card, dependent),
            card != dependent && !old(self).valid_entry(card, scan@) && !scan_has_id(scan@, card)
                ==> r == false && synced(final(self)@, scan@),
    {
        if card.0 == dependent.0 {
            return true;
        }
        let k_found: usize;
        match self.find(card) {
            Some(k) => {
                if path_in_scan(scan, &self.entries[k].path) {
                    proof {
                        self.lemma_entry_at(card, k as int);
                    }
                    k_found = k;
                } else {
                    proof {
                        self.lemma_entry_at(card, k as int);
                    }
                    self.sync_cache(scan);
                    match self.find(card) {
                        Some(k2) => {
                            proof {
                                assert(scan@[k2 as int].id == card);
                                assert(scan_has_id(scan@, card));
                            }
                            k_found = k2;
                        },
                        None => {
                            proof {
                                if scan_has_id(scan@, card) {
                                    let j = choose|j: int|
                                        0 <= j < scan@.len() && scan@[j].id == card;
                                    assert(self@[j].id == scan@[j].id);
                                    assert(self.has_id(card));
                                }
                            }
                            return false;
                        },
                    }
                }
            },
            None => {
                self.sync_cache(scan);
                match self.find(card) {
                    Some(k2) => {
                        proof {
                            assert(scan@[k2 as int].id == card);
                            assert(scan_has_id(scan@, card));
                        }
                        k_found = k2;
                    },
                    None => {
                        proof {
                            if scan_has_id(scan@, card) {
                                let j = choose|j: int| 0 <= j < scan@.len() && scan@[j].id == card;
                                assert(self@[j].id == scan@[j].id);
                                assert(self.has_id(card));
                            }
                        }
                        return false;
                    },
                }
            },
        }
        let ghost mid = *self;
        let k = k_found;
        let mut deps = clone_ids(&self.entries[k].dependents);
        let already = contains_id(&deps, dependent);
        if !already {
            deps.push(dependent);
        }
        proof {
            if !already {
                assert(deps@ == mid@[k as int].dependents@.push(dependent));
                assert forall|i1: int, j1: int| 0 <= i1 < j1 < deps@.len() implies deps@[i1]
                    != deps@[j1] by {
                    let pre = mid@[k as int].dependents@;
                    if j1 < pre.len() {
                        assert(pre[i1] == deps@[i1] && pre[j1] == deps@[j1]);
                    } else {
                        assert(deps@[j1] == dependent);
                        assert(pre[i1] == deps@[i1]);
                        assert(pre.contains(pre[i1]));
                    }
                };
            }
            assert forall|c: CardId| #[trigger] deps@.contains(c) implies (mid@[k as int].dependents@.contains(c)
                || c == dependent) by {
                let idx = choose|idx: int| 0 <= idx < deps@.len() && deps@[idx] == c;
                if idx < mid@[k as int].dependents@.len() {
                    assert(mid@[k as int].dependents@[idx] == c);
                }
            };
            assert forall|c: CardId| mid@[k as int].dependents@.contains(c) implies deps@.contains(
                c,
            ) by {
                let idx = choose|idx: int|
                    0 <= idx < mid@[k as int].dependents@.len() && mid@[k as int].dependents@[idx]
                        == c;
                assert(deps@[idx] == c);
            };
            if !already {
                assert(deps@[deps@.len() - 1] == dependent);
                assert(deps@.contains(dependent));
            }
        }
        let entry = LocationEntry {
            id: self.entries[k].id,
            path: self.entries[k].path.clone(),
            dependents: deps,
        };
        self.entries.set(k, entry);
        proof {
            assert(self@ == mid@.update(k as int, entry));
            if mid.wf() && mid@[k as int].id == card {
                assert forall|k2: int, c: CardId|
                    0 <= k2 < mid@.len() && mid@[k2].id == card implies (
                #[trigger] self@[k2].dependents@.contains(c) <==> (mid@[k2].dependents@.contains(c)
                    || c == dependent)) by {
                    if k2 != k as int {
                        mid.lemma_entry_at(card, k2);
                        mid.lemma_entry_at(card, k as int);
                    }
                };
            }
        }
        true
    }
}

/// Rebuilding the index twice from the same scan gives the same ids and
/// paths slot by slot and the identical set of dependents for every card:
/// a sync after a sync changes nothing observable.
pub proof fn lemma_sync_idempotent(
    e1: Seq<LocationEntry>,
    e2: Seq<LocationEntry>,
    scan: Seq<CardRecord>,
)
    requires
        scan_wf(scan),
        synced(e1, scan),
        synced(e2, scan),
    ensures
        e1.len() == e2.len(),
        forall|k: int|
            0 <= k < e1.len() ==> (#[trigger] e1[k]).id == e2[k].id && e1[k].path@ == e2[k].path@
                && e1[k].dependents@.to_set() == e2[k].dependents@.to_set(),
{
    assert forall|k: int| 0 <= k < e1.len() implies (#[trigger] e1[k]).id == e2[k].id
        && e1[k].path@ == e2[k].path@ && e1[k].dependents@.to_set() == e2[k].dependents@.to_set() by {
        assert(e1[k].id == scan[k].id && e2[k].id == scan[k].id);
        assert forall|c: CardId| e1[k].dependents@.to_set().contains(c) implies (e2[k]).dependents@.to_set().contains(c) by {
            assert(e1[k].dependents@.contains(c));
            assert(is_dependent_in(scan, e1[k].id, c));
            assert(e2[k].dependents@.contains(c));
        };
        assert forall|c: CardId| e2[k].dependents@.to_set().contains(c) implies (e1[k]).dependents@.to_set().contains(c) by {
            assert(e2[k].dependents@.contains(c));
            assert(is_dependent_in(scan, e2[k].id, c));
            assert(e1[k].dependents@.contains(c));
        };
        assert(e1[k].dependents@.to_set() =~= e2[k].dependents@.to_set());
    };
}

} // verus!
