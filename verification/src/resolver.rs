//! The dependency resolver: graph queries over the card cache.
//!
//! The dependency graph read here is the cache's effective view of the
//! filesystem: a fresh cache slot supplies its cached dependency ids, any
//! other resolvable id supplies what is on disk, and an id found in
//! neither place is a dead end — a dangling edge contributes nothing
//! further and aborts nothing. Queries are read-only: they consult the
//! cache without mutating it.

use vstd::prelude::*;

use crate::cache::{scan_has_id, CardRecord};
use crate::card::{fs_record_of, fs_wf, CacheState, CachedCard, CardCache};
use crate::common::CardId;

verus! {

broadcast use vstd::seq_lib::lemma_seq_contains_after_push;

impl CardCache {
    /// Whether `id` can be resolved at all: served fresh from the cache or
    /// found on disk.
    pub open spec fn eff_has(&self, fs: Seq<CardRecord>, id: CardId) -> bool {
        self.classify_spec(id, fs) == CacheState::UpToDate || scan_has_id(fs, id)
    }

    /// The dependency ids `id` resolves to: the cached ones while the slot
    /// is fresh, else the ones on disk.
    pub open spec fn eff_deps(&self, fs: Seq<CardRecord>, id: CardId) -> Seq<CardId> {
        if self.classify_spec(id, fs) == CacheState::UpToDate {
            self.entry_for(id).dependency_ids@
        } else {
            fs_record_of(fs, id).dependency_ids@
        }
    }

    /// Whether `id` resolves to a finished card.
    pub open spec fn eff_finished(&self, fs: Seq<CardRecord>, id: CardId) -> bool {
        if self.classify_spec(id, fs) == CacheState::UpToDate {
            self.entry_for(id).finished
        } else {
            fs_record_of(fs, id).finished
        }
    }

    /// Every hop of the path follows a resolvable dependency edge.
    pub open spec fn dep_path_ok(&self, fs: Seq<CardRecord>, path: Seq<CardId>) -> bool {
        forall|i: int|
            0 <= i < path.len() - 1 ==> (self.eff_has(fs, #[trigger] path[i]) && self.eff_deps(
                fs,
                path[i],
            ).contains(path[i + 1]))
    }

    /// `to` is a (transitive) dependency of `from`: some non-empty chain
    /// of dependency edges leads from one to the other.
    pub open spec fn reachable(&self, fs: Seq<CardRecord>, from: CardId, to: CardId) -> bool {
        exists|path: Seq<CardId>|
            path.len() >= 2 && path.first() == from && path.last() == to && #[trigger] self.dep_path_ok(
                fs,
                path,
            )
    }

    /// One resolvable edge is a two-node path.
    proof fn lemma_reach_direct(&self, fs: Seq<CardRecord>, a: CardId, c: CardId)
        requires
            self.eff_has(fs, a),
            self.eff_deps(fs, a).contains(c),
        ensures
            self.reachable(fs, a, c),
    {
        let path = seq![a, c];
        assert(path.first() == a && path.last() == c);
        assert(self.dep_path_ok(fs, path));
    }

    /// A reachable node's own resolvable edge extends the reach by one.
    proof fn lemma_reach_step(&self, fs: Seq<CardRecord>, a: CardId, b: CardId, c: CardId)
        requires
            self.reachable(fs, a, b),
            self.eff_has(fs, b),
            self.eff_deps(fs, b).contains(c),
        ensures
            self.reachable(fs, a, c),
    {
        let path = choose|path: Seq<CardId>|
            path.len() >= 2 && path.first() == a && path.last() == b && #[trigger] self.dep_path_ok(
                fs,
                path,
            );
        let longer = path.push(c);
        assert(longer.first() == a && longer.last() == c);
        assert forall|i: int| 0 <= i < longer.len() - 1 implies self.eff_has(fs, longer[i])
            && self.eff_deps(fs, longer[i]).contains(longer[i + 1]) by {
            if i < path.len() - 1 {
                assert(self.eff_has(fs, path[i]) && self.eff_deps(fs, path[i]).contains(
                    path[i + 1],
                ));
                assert(longer[i] == path[i] && longer[i + 1] == path[i + 1]);
            } else {
                assert(i == path.len() - 1);
                assert(longer[i] == path[i]);
                assert(path[i] == path.last());
                assert(longer[i + 1] == c);
            }
        };
        assert(self.dep_path_ok(fs, longer));
    }
}

/// All dependency ids stored in a sequence of cache slots, concatenated.
spec fn entry_dep_pool(s: Seq<CachedCard>) -> Seq<CardId>
    decreases s.len(),
{
    if s.len() == 0 {
        Seq::empty()
    } else {
        entry_dep_pool(s.drop_last()) + s.last().dependency_ids@
    }
}

/// All dependency ids declared in a sequence of records, concatenated.
spec fn record_dep_pool(s: Seq<CardRecord>) -> Seq<CardId>
    decreases s.len(),
{
    if s.len() == 0 {
        Seq::empty()
    } else {
        record_dep_pool(s.drop_last()) + s.last().dependency_ids@
    }
}

proof fn lemma_entry_pool_contains(s: Seq<CachedCard>, k: int, x: CardId)
    requires
        0 <= k < s.len(),
        s[k].dependency_ids@.contains(x),
    ensures
        entry_dep_pool(s).contains(x),
    decreases s.len(),
{
    if k == s.len() - 1 {
        let i = choose|i: int|
            0 <= i < s.last().dependency_ids@.len() && s.last().dependency_ids@[i] == x;
        assert(entry_dep_pool(s)[entry_dep_pool(s.drop_last()).len() + i] == x);
    } else {
        lemma_entry_pool_contains(s.drop_last(), k, x);
        let i = choose|i: int|
            0 <= i < entry_dep_pool(s.drop_last()).len() && entry_dep_pool(s.drop_last())[i] == x;
        assert(entry_dep_pool(s)[i] == x);
    }
}

proof fn lemma_record_pool_contains(s: Seq<CardRecord>, k: int, x: CardId)
    requires
        0 <= k < s.len(),
        s[k].dependency_ids@.contains(x),
    ensures
        record_dep_pool(s).contains(x),
    decreases s.len(),
{
    if k == s.len() - 1 {
        let i = choose|i: int|
            0 <= i < s.last().dependency_ids@.len() && s.last().dependency_ids@[i] == x;
        assert(record_dep_pool(s)[record_dep_pool(s.drop_last()).len() + i] == x);
    } else {
        lemma_record_pool_contains(s.drop_last(), k, x);
        let i = choose|i: int|
            0 <= i < record_dep_pool(s.drop_last()).len() && record_dep_pool(s.drop_last())[i]
                == x;
        assert(record_dep_pool(s)[i] == x);
    }
}

/// Every id that any resolvable card lists as a dependency.
spec fn dep_universe(cache: &CardCache, fs: Seq<CardRecord>) -> Seq<CardId> {
    entry_dep_pool(cache@) + record_dep_pool(fs)
}

/// Anything an effective dependency list holds is drawn from the pool of
/// all stored dependency ids.
proof fn lemma_eff_deps_in_universe(
    cache: &CardCache,
    fs: Seq<CardRecord>,
    id: CardId,
    x: CardId,
)
    requires
        cache.wf(),
        cache.eff_has(fs, id),
        cache.eff_deps(fs, id).contains(x),
    ensures
        dep_universe(cache, fs).contains(x),
{
    if cache.classify_spec(id, fs) == CacheState::UpToDate {
        let k = crate::card::slot_of(cache@, id);
        assert(cache@[k].dependency_ids@.contains(x));
        lemma_entry_pool_contains(cache@, k, x);
        let i = choose|i: int|
            0 <= i < entry_dep_pool(cache@).len() && entry_dep_pool(cache@)[i] == x;
        assert(dep_universe(cache, fs)[i] == x);
    } else {
        let j = choose|j: int| 0 <= j < fs.len() && fs[j].id == id;
        assert(fs[j].dependency_ids@.contains(x));
        lemma_record_pool_contains(fs, j, x);
        let i = choose|i: int| 0 <= i < record_dep_pool(fs).len() && record_dep_pool(fs)[i] == x;
        assert(dep_universe(cache, fs)[entry_dep_pool(cache@).len() + i] == x);
    }
}

/// A duplicate-free sequence drawn from a pool is no longer than the pool.
proof fn lemma_nodup_drawn_len(s: Seq<CardId>, pool: Seq<CardId>)
    requires
        s.no_duplicates(),
        forall|x: CardId| s.contains(x) ==> pool.contains(x),
    ensures
        s.len() <= pool.len(),
{
    s.unique_seq_to_set();
    pool.lemma_cardinality_of_set();
    assert forall|x: CardId| s.to_set().contains(x) implies pool.to_set().contains(x) by {
        assert(s.contains(x));
        assert(pool.contains(x));
    };
    assert(s.to_set().subset_of(pool.to_set()));
    broadcast use vstd::seq_lib::seq_to_set_is_finite;

    vstd::set_lib::lemma_len_subset(s.to_set(), pool.to_set());
}

/// Any dependency chain out of `id` ends inside a set that holds the
/// direct dependencies of `id` and is closed under resolvable edges.
proof fn lemma_closure_catches(
    cache: &CardCache,
    fs: Seq<CardRecord>,
    id: CardId,
    found: Seq<CardId>,
    path: Seq<CardId>,
)
    requires
        forall|d: CardId|
            cache.eff_has(fs, id) && #[trigger] cache.eff_deps(fs, id).contains(d) ==> d == id
                || found.contains(d),
        forall|x: CardId, d: CardId|
            found.contains(x) && cache.eff_has(fs, x) && #[trigger] cache.eff_deps(
                fs,
                x,
            ).contains(d) ==> d == id || found.contains(d),
        path.len() >= 2,
        path.first() == id,
        cache.dep_path_ok(fs, path),
        path.last() != id,
    ensures
        found.contains(path.last()),
    decreases path.len(),
{
    let b = path[path.len() - 2];
    assert(cache.eff_has(fs, b) && cache.eff_deps(fs, b).contains(path.last()));
    if b == id {
        assert(found.contains(path.last()));
    } else {
        let prefix = path.drop_last();
        assert(prefix.len() >= 2) by {
            assert(path.len() >= 3 || path[0] == b);
        }
        assert(prefix.first() == id);
        assert(prefix.last() == b);
        assert forall|i: int| 0 <= i < prefix.len() - 1 implies (cache.eff_has(
            fs,
            #[trigger] prefix[i],
        ) && cache.eff_deps(fs, prefix[i]).contains(prefix[i + 1])) by {
            assert(prefix[i] == path[i] && prefix[i + 1] == path[i + 1]);
        };
        lemma_closure_catches(cache, fs, id, found, prefix);
        assert(found.contains(b));
        assert(found.contains(path.last()));
    }
}

impl CardCache {
    /// The snapshot `id` effectively resolves to right now: the cached one
    /// while fresh, else what is on disk; nothing for a dangling id. The
    /// cache itself is left untouched.
    fn eff_lookup(&self, id: CardId, fs: &Vec<CardRecord>) -> (r: Option<CachedCard>)
        requires
            fs_wf(fs@),
            self.wf(),
        ensures
            r is Some <==> self.eff_has(fs@, id),
            r matches Some(c) ==> c.dependency_ids@ == self.eff_deps(fs@, id) && c.finished
                == self.eff_finished(fs@, id),
    {
        let state = self.classify(id, fs);
        match state {
            CacheState::UpToDate => {
                match self.find(id) {
                    Some(k) => {
                        proof {
                            self.lemma_entry_at(id, k as int);
                        }
                        Some(self.entry_duplicate(k))
                    },
                    None => None,
                }
            },
            _ => {
                match Self::find_record_by_id(fs, id) {
                    Some(rec) => Some(CachedCard::from_record(rec)),
                    None => None,
                }
            },
        }
    }

    /// The direct dependency ids of a card, or empty if the card cannot be
    /// resolved at all.
    pub fn direct_dependencies(&self, id: CardId, fs: &Vec<CardRecord>) -> (r: Vec<CardId>)
        requires
            fs_wf(fs@),
            self.wf(),
        ensures
            self.eff_has(fs@, id) ==> r@ == self.eff_deps(fs@, id),
            !self.eff_has(fs@, id) ==> r@.len() == 0,
    {
        match self.eff_lookup(id, fs) {
            Some(card) => card.dependency_ids,
            None => Vec::new(),
        }
    }

    /// Every transitive dependency of a card, collected by an iterative
    /// traversal with an explicit worklist and a visited set: cycles are
    /// walked once and never looped over, a dangling id is kept as a dead
    /// end, and the starting card itself is excluded even when a cycle
    /// leads back to it.
    #[verifier::rlimit(50)]
    pub fn all_dependencies(&self, id: CardId, fs: &Vec<CardRecord>) -> (r: Vec<CardId>)
        requires
            fs_wf(fs@),
            self.wf(),
        ensures
            r@.no_duplicates(),
            !r@.contains(id),
            forall|c: CardId| #[trigger] r@.contains(c) ==> self.reachable(fs@, id, c),
            forall|c: CardId|
                #[trigger] self.reachable(fs@, id, c) && c != id ==> r@.contains(c),
    {
        let ghost uni = dep_universe(self, fs@);
        let mut found: Vec<CardId> = Vec::new();
        match self.eff_lookup(id, fs) {
            None => {
                proof {
                    assert forall|c: CardId|
                        #[trigger] self.reachable(fs@, id, c) && c != id implies found@.contains(
                        c,
                    ) by {
                        let path = choose|path: Seq<CardId>|
                            path.len() >= 2 && path.first() == id && path.last() == c
                                && #[trigger] self.dep_path_ok(fs@, path);
                        assert(self.eff_has(fs@, path[0]));
                        assert(false);
                    };
                }
                return found;
            },
            Some(card) => {
                let deps = card.dependency_ids;
                let mut q: usize = 0;
                while q < deps.len()
                    invariant
                        0 <= q <= deps@.len(),
                        deps@ == self.eff_deps(fs@, id),
                        self.eff_has(fs@, id),
                        uni == dep_universe(self, fs@),
                        fs_wf(fs@),
                        self.wf(),
                        found@.no_duplicates(),
                        !found@.contains(id),
                        forall|c: CardId|
                            #[trigger] found@.contains(c) ==> self.reachable(fs@, id, c),
                        forall|c: CardId|
                            #[trigger] found@.contains(c) ==> uni.contains(c),
                        forall|i: int|
                            0 <= i < q ==> #[trigger] deps@[i] == id || found@.contains(deps@[i]),
                    decreases deps@.len() - q,
                {
                    let d = deps[q];
                    if d.0 != id.0 && !crate::cache::contains_id(&found, d) {
                        proof {
                            assert(self.eff_deps(fs@, id).contains(deps@[q as int]));
                            self.lemma_reach_direct(fs@, id, d);
                            lemma_eff_deps_in_universe(self, fs@, id, d);
                        }
                        let ghost pre = found@;
                        found.push(d);
                        proof {
                            assert forall|i1: int, j1: int|
                                0 <= i1 < j1 < found@.len() implies found@[i1] != found@[j1] by {
                                if j1 < pre.len() {
                                    assert(pre[i1] == found@[i1] && pre[j1] == found@[j1]);
                                } else {
                                    assert(found@[j1] == d);
                                    assert(pre[i1] == found@[i1]);
                                    assert(pre.contains(pre[i1]));
                                }
                            };
                        }
                    }
                    q += 1;
                }
            },
        }
        let mut p: usize = 0;
        proof {
            lemma_nodup_drawn_len(found@, uni);
        }
        while p < found.len()
            invariant
                0 <= p <= found@.len(),
                found@.len() <= uni.len(),
                uni == dep_universe(self, fs@),
                fs_wf(fs@),
                self.wf(),
                found@.no_duplicates(),
                !found@.contains(id),
                forall|c: CardId| #[trigger] found@.contains(c) ==> self.reachable(fs@, id, c),
                forall|c: CardId| #[trigger] found@.contains(c) ==> uni.contains(c),
                forall|d: CardId|
                    self.eff_has(fs@, id) && #[trigger] self.eff_deps(fs@, id).contains(d) ==> d
                        == id || found@.contains(d),
                forall|t: int, d: CardId|
                    0 <= t < p && self.eff_has(fs@, found@[t]) && #[trigger] self.eff_deps(
                        fs@,
                        found@[t],
                    ).contains(d) ==> d == id || found@.contains(d),
            decreases uni.len() - p,
        {
            let x = found[p];
            match self.eff_lookup(x, fs) {
                None => {},
                Some(card) => {
                    let deps = card.dependency_ids;
                    let ghost found_at_entry = found@;
                    let mut q: usize = 0;
                    while q < deps.len()
                        invariant
                            0 <= q <= deps@.len(),
                            0 <= p < found@.len(),
                            x == found@[p as int],
                            deps@ == self.eff_deps(fs@, x),
                            self.eff_has(fs@, x),
                            found@.len() <= uni.len(),
                            uni == dep_universe(self, fs@),
                            fs_wf(fs@),
                            self.wf(),
                            found@.no_duplicates(),
                            !found@.contains(id),
                            forall|c: CardId|
                                #[trigger] found@.contains(c) ==> self.reachable(fs@, id, c),
                            forall|c: CardId| #[trigger] found@.contains(c) ==> uni.contains(c),
                            forall|d: CardId|
                                self.eff_has(fs@, id) && #[trigger] self.eff_deps(
                                    fs@,
                                    id,
                                ).contains(d) ==> d == id || found@.contains(d),
                            forall|t: int, d: CardId|
                                0 <= t < p && self.eff_has(fs@, found@[t])
                                    && #[trigger] self.eff_deps(fs@, found@[t]).contains(d) ==> d
                                    == id || found@.contains(d),
                            forall|i: int|
                                0 <= i < q ==> #[trigger] deps@[i] == id || found@.contains(
                                    deps@[i],
                                ),
                        decreases deps@.len() - q,
                    {
                        let d = deps[q];
                        if d.0 != id.0 && !crate::cache::contains_id(&found, d) {
                            proof {
                                assert(found@.contains(x));
                                assert(self.reachable(fs@, id, x));
                                assert(self.eff_deps(fs@, x).contains(deps@[q as int]));
                                self.lemma_reach_step(fs@, id, x, d);
                                lemma_eff_deps_in_universe(self, fs@, x, d);
                            }
                            let ghost pre = found@;
                            found.push(d);
                            proof {
                                assert forall|i1: int, j1: int|
                                    0 <= i1 < j1 < found@.len() implies found@[i1] != found@[j1] by {
                                    if j1 < pre.len() {
                                        assert(pre[i1] == found@[i1] && pre[j1] == found@[j1]);
                                    } else {
                                        assert(found@[j1] == d);
                                        assert(pre[i1] == found@[i1]);
                                        assert(pre.contains(pre[i1]));
                                    }
                                };
                                lemma_nodup_drawn_len(found@, uni);
                            }
                        }
                        q += 1;
                    }
                },
            }
            p += 1;
        }
        proof {
            assert forall|c: CardId| #[trigger] self.reachable(fs@, id, c) && c != id implies
                found@.contains(c) by {
                let path = choose|path: Seq<CardId>|
                    path.len() >= 2 && path.first() == id && path.last() == c
                        && #[trigger] self.dep_path_ok(fs@, path);
                assert forall|x: CardId, d: CardId|
                    found@.contains(x) && self.eff_has(fs@, x) && #[trigger] self.eff_deps(
                        fs@,
                        x,
                    ).contains(d) implies d == id || found@.contains(d) by {
                    let t = choose|t: int| 0 <= t < found@.len() && found@[t] == x;
                };
                lemma_closure_catches(self, fs@, id, found@, path);
            };
        }
        found
    }

    /// Whether every card in the recursive dependency closure is finished.
    /// A dangling dependency is a dead end, not a failure: only a card
    /// that resolves and is unfinished makes this false; a card with no
    /// dependencies is trivially resolved.
    pub fn is_resolved(&self, id: CardId, fs: &Vec<CardRecord>) -> (r: bool)
        requires
            fs_wf(fs@),
            self.wf(),
        ensures
            r == (forall|c: CardId|
                #[trigger] self.reachable(fs@, id, c) && c != id && self.eff_has(fs@, c)
                    ==> self.eff_finished(fs@, c)),
    {
        let deps = self.all_dependencies(id, fs);
        let mut i: usize = 0;
        while i < deps.len()
            invariant
                0 <= i <= deps@.len(),
                fs_wf(fs@),
                self.wf(),
                deps@.no_duplicates(),
                !deps@.contains(id),
                forall|c: CardId| #[trigger] deps@.contains(c) ==> self.reachable(fs@, id, c),
                forall|c: CardId|
                    #[trigger] self.reachable(fs@, id, c) && c != id ==> deps@.contains(c),
                forall|t: int|
                    0 <= t < i && self.eff_has(fs@, #[trigger] deps@[t]) ==> self.eff_finished(
                        fs@,
                        deps@[t],
                    ),
            decreases deps@.len() - i,
        {
            match self.eff_lookup(deps[i], fs) {
                Some(card) => {
                    if !card.finished {
                        proof {
                            assert(deps@.contains(deps@[i as int]));
                            assert(self.reachable(fs@, id, deps@[i as int]));
                        }
                        return false;
                    }
                },
                None => {},
            }
            i += 1;
        }
        proof {
            assert forall|c: CardId|
                #[trigger] self.reachable(fs@, id, c) && c != id && self.eff_has(fs@, c) implies
                self.eff_finished(fs@, c) by {
                assert(deps@.contains(c));
                let t = choose|t: int| 0 <= t < deps@.len() && deps@[t] == c;
            };
        }
        true
    }
}

} // verus!
