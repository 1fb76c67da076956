//! The cache itself: the entry pool, the recency list, the frequency
//! buckets and the key index, with the algorithms that keep them coupled.

use vstd::prelude::*;
use std::collections::HashMap;
use crate::Region;
use crate::model::{
    FbrModel, Item, age_debit, aged_items, aged_total, bumped, chain_without, contains_key,
    insert_model, key_pos, lemma_key_pos_of, model_wf, region_of, touch_model, victim_key,
    victim_key_from, will_age,
};

verus! {

broadcast use vstd::std_specs::hash::group_hash_axioms;

/// One pooled entry. A slot is created during warmup and, once the cache is
/// full, recycled by eviction: the evicted slot's storage receives the new
/// key and value.
struct FbrEntry<V> {
    key: u64,
    value: V,
    count: usize,
}

impl<V> FbrEntry<V> {
    fn new(key: u64, value: V) -> (e: Self)
        ensures
            e.key == key,
            e.value == value,
            e.count == 0,
    {
        FbrEntry { key, value, count: 0 }
    }

    /// Overwrite the slot for a new entry; the previous value is dropped
    /// here, deterministically, when the assignment replaces it.
    fn reuse(&mut self, key: u64, value: V)
        ensures
            final(self).key == key,
            final(self).value == value,
            final(self).count == 0,
    {
        self.count = 0;
        self.key = key;
        self.value = value;
    }

    /// A hit: the count rises by one unless the entry was in the New
    /// region. Returns the count before the hit.
    fn access(&mut self, prior: Region) -> (old_count: usize)
        ensures
            old_count == old(self).count,
            final(self).key == old(self).key,
            final(self).value == old(self).value,
            final(self).count == if prior == Region::New {
                old(self).count as nat
            } else {
                bumped(old(self).count as nat)
            },
    {
        let count = self.count;
        if !matches!(prior, Region::New) {
            self.bump();
        }
        count
    }

    /// Raise the count by one, saturating at the machine limit.
    fn bump(&mut self)
        ensures
            final(self).key == old(self).key,
            final(self).value == old(self).value,
            final(self).count == bumped(old(self).count as nat),
    {
        if self.count < usize::MAX {
            self.count = self.count + 1;
        }
    }

    /// Halve the count; returns how much was lost.
    fn age(&mut self) -> (delta: usize)
        ensures
            final(self).key == old(self).key,
            final(self).value == old(self).value,
            final(self).count == old(self).count / 2,
            delta == old(self).count - old(self).count / 2,
    {
        let count = self.count;
        self.count = count / 2;
        count - self.count
    }
}

/// Cache with frequency-based replacement strategy.
///
/// Items are held in recently-used order, with the front 30% of the list
/// designated as "new" space and the back 25% as "old" space. Each cache
/// hit (via `get` or `put`) moves the item in question to the front of the
/// list and increments the usage count if the item was not in the "new"
/// space before.
///
/// Usage counts are periodically aged (halved) to prevent items that were
/// popular in the past from staying in the cache forever.
///
/// Eviction only removes "old" items: if there are some with usage count
/// less than `C_MAX`, the least recent among the least-used ones is taken;
/// otherwise the least recently used is evicted.
pub struct FbrCache<V, const C_MAX: usize> {
    hash: HashMap<u64, usize>,
    entries: Vec<FbrEntry<V>>,
    lru: Vec<usize>,
    chains: Vec<Vec<usize>>,
    mid_size: usize,
    old_start: usize,
    total_count: usize,
    capacity: usize,
    age_threshold: usize,
}

impl<V, const C_MAX: usize> View for FbrCache<V, C_MAX> {
    type V = FbrModel<V>;

    closed spec fn view(&self) -> FbrModel<V> {
        FbrModel {
            items: Seq::new(
                self.lru@.len(),
                |p: int|
                    Item {
                        key: self.entries@[self.lru@[p] as int].key,
                        value: self.entries@[self.lru@[p] as int].value,
                        count: self.entries@[self.lru@[p] as int].count as nat,
                    },
            ),
            chains: Seq::new(
                C_MAX as nat,
                |b: int| self.chains@[b]@.map_values(|e: usize| self.entries@[e as int].key),
            ),
            total: self.total_count as nat,
            capacity: self.capacity as nat,
            mid_size: self.mid_size as nat,
            old_start: self.old_start as nat,
            threshold: self.age_threshold as nat,
            cmax: C_MAX as nat,
        }
    }
}

impl<V, const C_MAX: usize> FbrCache<V, C_MAX> {
    /// The internal coupling of the four indices. Public calls require and
    /// preserve it.
    pub closed spec fn wf(&self) -> bool {
        &&& self.wf0()
        &&& self.total_count <= self.age_threshold
    }

    /// `wf` without the bound on the running total, which a hit exceeds for
    /// the moment before the aging pass runs.
    spec fn wf0(&self) -> bool {
        let n = self.entries@.len() as int;
        &&& self.lru@.len() == n
        &&& n <= self.capacity
        &&& self.capacity >= 4
        &&& C_MAX >= 2
        &&& self.mid_size == self.capacity * 3 / 10
        &&& self.old_start == self.capacity * 3 / 4
        &&& self.mid_size < self.old_start
        &&& self.old_start < self.capacity
        &&& (forall|p: int| 0 <= p < n ==> (#[trigger] self.lru@[p] as int) < n)
        &&& (forall|p: int, q: int| 0 <= p < q < n ==> self.lru@[p] != self.lru@[q])
        &&& (forall|i: usize| (i as int) < n ==> #[trigger] self.lru@.contains(i))
        &&& (forall|i: int, j: int|
            0 <= i < j < n ==> self.entries@[i].key != self.entries@[j].key)
        &&& (forall|i: int|
            0 <= i < n ==> {
                &&& #[trigger] self.hash@.contains_key(self.entries@[i].key)
                &&& self.hash@[self.entries@[i].key] == i as usize
            })
        &&& (forall|k: u64|
            self.hash@.contains_key(k) ==> {
                &&& (#[trigger] self.hash@[k] as int) < n
                &&& self.entries@[self.hash@[k] as int].key == k
            })
        &&& self.chains@.len() == C_MAX
        &&& (forall|b: int, j: int|
            0 <= b < C_MAX && 0 <= j < self.chains@[b]@.len() ==> {
                &&& (#[trigger] self.chains@[b]@[j] as int) < n
                &&& self.entries@[self.chains@[b]@[j] as int].count == b
            })
        &&& (forall|b: int, j1: int, j2: int|
            0 <= b < C_MAX && 0 <= j1 < j2 < self.chains@[b]@.len() ==> self.chains@[b]@[j1]
                != self.chains@[b]@[j2])
        &&& (forall|i: usize|
            (i as int) < n && self.entries@[i as int].count < C_MAX
                ==> #[trigger] self.chains@[self.entries@[i as int].count as int]@.contains(i))
    }

    /// Region of the entry at position `pos` of the recency list.
    fn region_at(&self, pos: usize) -> (r: Region)
        ensures
            r == region_of(
                pos as int,
                self.lru@.len() as int,
                self.mid_size as int,
                self.old_start as int,
            ),
    {
        let len = self.lru.len();
        if len > self.old_start && pos >= self.old_start {
            Region::Old
        } else if len > self.mid_size && pos >= self.mid_size {
            Region::Middle
        } else {
            Region::New
        }
    }

    /// Under `wf`, the abstract items carry pairwise distinct keys, and each
    /// item's key finds that item.
    proof fn lemma_distinct_keys(&self)
        requires
            self.wf(),
        ensures
            forall|a: int, b: int|
                0 <= a < b < self@.items.len() ==> self@.items[a].key != self@.items[b].key,
            forall|p: int|
                0 <= p < self@.items.len() ==> contains_key(self@, #[trigger] self@.items[p].key)
                    && key_pos(self@, self@.items[p].key) == p,
    {
        assert forall|a: int, b: int|
            0 <= a < b < self@.items.len() implies self@.items[a].key != self@.items[b].key by {
            assert(self.lru@[a] != self.lru@[b]);
        }
        assert forall|p: int|
            0 <= p < self@.items.len() implies contains_key(self@, #[trigger] self@.items[p].key)
            && key_pos(self@, self@.items[p].key) == p by {
            lemma_key_pos_of(self@, p);
        }
    }

    /// The state between detaching slot `vi` from the indices and
    /// re-attaching it: everything of `wf` holds of the remaining entries,
    /// and no index mentions `vi`.
    spec fn wf_detached(&self, vi: usize) -> bool {
        let n = self.entries@.len() as int;
        &&& self.lru@.len() == n - 1
        &&& (vi as int) < n
        &&& n <= self.capacity
        &&& self.capacity >= 4
        &&& C_MAX >= 2
        &&& self.mid_size == self.capacity * 3 / 10
        &&& self.old_start == self.capacity * 3 / 4
        &&& self.mid_size < self.old_start
        &&& self.old_start < self.capacity
        &&& (forall|p: int|
            0 <= p < n - 1 ==> (#[trigger] self.lru@[p] as int) < n && self.lru@[p] != vi)
        &&& (forall|p: int, q: int| 0 <= p < q < n - 1 ==> self.lru@[p] != self.lru@[q])
        &&& (forall|i: usize|
            (i as int) < n && i != vi ==> #[trigger] self.lru@.contains(i))
        &&& (forall|i: int, j: int|
            0 <= i < j < n ==> self.entries@[i].key != self.entries@[j].key)
        &&& (forall|i: int|
            0 <= i < n && i != vi ==> {
                &&& #[trigger] self.hash@.contains_key(self.entries@[i].key)
                &&& self.hash@[self.entries@[i].key] == i as usize
            })
        &&& (forall|k: u64|
            self.hash@.contains_key(k) ==> {
                &&& (#[trigger] self.hash@[k] as int) < n
                &&& self.hash@[k] != vi
                &&& self.entries@[self.hash@[k] as int].key == k
            })
        &&& self.chains@.len() == C_MAX
        &&& (forall|b: int, j: int|
            0 <= b < C_MAX && 0 <= j < self.chains@[b]@.len() ==> {
                &&& (#[trigger] self.chains@[b]@[j] as int) < n
                &&& self.chains@[b]@[j] != vi
                &&& self.entries@[self.chains@[b]@[j] as int].count == b
            })
        &&& (forall|b: int, j1: int, j2: int|
            0 <= b < C_MAX && 0 <= j1 < j2 < self.chains@[b]@.len() ==> self.chains@[b]@[j1]
                != self.chains@[b]@[j2])
        &&& (forall|i: usize|
            (i as int) < n && i != vi && self.entries@[i as int].count < C_MAX
                ==> #[trigger] self.chains@[self.entries@[i as int].count as int]@.contains(i))
        &&& self.total_count <= self.age_threshold
    }

    /// Find the slot the eviction rule removes, together with its position
    /// in the recency list: the least recent member of the lowest-count
    /// bucket whose least recent member is Old, or the least recently used
    /// entry when no bucket qualifies.
    fn pick_victim(&self) -> (r: (usize, usize))
        requires
            self.wf(),
            self.lru@.len() >= self.capacity,
        ensures
            ({
                let m = self@;
                let vk = victim_key(m);
                let p = key_pos(m, vk);
                &&& 0 <= p < self.lru@.len()
                &&& r.1 == p
                &&& r.0 == self.lru@[p]
                &&& self.entries@[r.0 as int].key == vk
            }),
    {
        proof {
            self.lemma_distinct_keys();
        }
        let mut b: usize = 0;
        while b < C_MAX
            invariant
                self.wf(),
                self.lru@.len() >= self.capacity,
                b <= C_MAX,
                victim_key_from(self@, 0) == victim_key_from(self@, b as int),
            decreases C_MAX - b,
        {
            let blen = self.chains[b].len();
            if blen > 0 {
                let e = self.chains[b][blen - 1];
                proof {
                    assert(self.lru@.contains(e));
                }
                let pos = find_in(&self.lru, e);
                let r = self.region_at(pos);
                proof {
                    self.lemma_distinct_keys();
                    assert(self@.chains[b as int].last() == self.entries@[e as int].key);
                    assert(self@.items[pos as int].key == self.entries@[e as int].key);
                    lemma_key_pos_of(self@, pos as int);
                }
                if matches!(r, Region::Old) {
                    proof {
                        assert(victim_key_from(self@, b as int)
                            == Some(self@.chains[b as int].last()));
                    }
                    return (e, pos);
                }
            }
            b = b + 1;
        }
        proof {
            assert(victim_key_from(self@, 0) is None);
        }
        let pos = self.lru.len() - 1;
        let e = self.lru[pos];
        proof {
            self.lemma_distinct_keys();
            assert(self@.items.last().key == self.entries@[e as int].key);
            lemma_key_pos_of(self@, pos as int);
        }
        (e, pos)
    }

    /// Remove the eviction rule's victim from the recency list, its bucket
    /// and the key index; its storage slot is returned for reuse.
    fn evict(&mut self) -> (vi: usize)
        requires
            old(self).wf(),
            old(self).lru@.len() >= old(self).capacity,
        ensures
            final(self).entries == old(self).entries,
            final(self).capacity == old(self).capacity,
            final(self).mid_size == old(self).mid_size,
            final(self).old_start == old(self).old_start,
            final(self).age_threshold == old(self).age_threshold,
            final(self).total_count == old(self).total_count,
            final(self).wf_detached(vi),
            ({
                let m = old(self)@;
                let vk = victim_key(m);
                let p = key_pos(m, vk);
                &&& 0 <= p < m.items.len()
                &&& vi == old(self).lru@[p]
                &&& final(self).entries@[vi as int].key == vk
                &&& final(self).lru@ == old(self).lru@.remove(p)
                &&& final(self)@.items == m.items.remove(p)
                &&& final(self)@.chains == (if m.items[p].count < m.cmax {
                    chain_without(m.chains, m.items[p].count as int, vk)
                } else {
                    m.chains
                })
            }),
    {
        proof {
            self.lemma_distinct_keys();
        }
        let ghost m = self@;
        let (e, pos) = self.pick_victim();
        let ghost vk = victim_key(m);
        let c = self.entries[e].count;
        if c < C_MAX {
            proof {
                assert(self.chains@[c as int]@.contains(e));
            }
            bucket_remove(&mut self.chains, c, e);
            proof {
                let pre = old(self).chains@[c as int]@;
                let j = choose|j: int|
                    0 <= j < pre.len() && pre[j] == e && (forall|q: int|
                        0 <= q < j ==> pre[q] != e) && self.chains@[c as int]@ == pre.remove(j);
                let mk = m.chains[c as int];
                assert(mk[j] == vk);
                assert forall|q: int| 0 <= q < mk.len() && q != j implies mk[q] != vk by {
                    assert(pre[q] != pre[j]);
                }
                mk.index_of_first_ensures(vk);
                assert(mk.index_of_first(vk) == Some(j));
                assert(self@.chains[c as int] =~= mk.remove(j));
                assert(self@.chains =~= chain_without(m.chains, c as int, vk));
            }
        }
        self.lru.remove(pos);
        let vkx = self.entries[e].key;
        self.hash.remove(&vkx);
        proof {
            assert(self@.items =~= m.items.remove(pos as int));
            if c >= C_MAX {
                assert(self@.chains =~= m.chains);
            }
            assert forall|i: usize|
                (i as int) < self.entries@.len() && i != e implies #[trigger] self.lru@.contains(
                i,
            ) by {
                assert(old(self).lru@.contains(i));
                let q = choose|q: int|
                    0 <= q < old(self).lru@.len() && old(self).lru@[q] == i;
                old(self).lru@.remove_ensures(pos as int);
                if q < pos {
                    assert(self.lru@[q] == i);
                } else {
                    assert(q != pos);
                    assert(self.lru@[q - 1] == i);
                }
            }
            assert(self.hash@ == old(self).hash@.remove(vkx));
            old(self).lru@.remove_ensures(pos as int);
            assert(self.lru@.len() == self.entries@.len() - 1);
            assert(forall|p: int|
                0 <= p < self.lru@.len() ==> (#[trigger] self.lru@[p] as int)
                    < self.entries@.len() && self.lru@[p] != e);
            assert(forall|p: int, q: int|
                0 <= p < q < self.lru@.len() ==> self.lru@[p] != self.lru@[q]);
            assert(forall|i: int|
                0 <= i < self.entries@.len() && i != e ==> {
                    &&& #[trigger] self.hash@.contains_key(self.entries@[i].key)
                    &&& self.hash@[self.entries@[i].key] == i as usize
                });
            assert(forall|k: u64|
                self.hash@.contains_key(k) ==> {
                    &&& (#[trigger] self.hash@[k] as int) < self.entries@.len()
                    &&& self.hash@[k] != e
                    &&& self.entries@[self.hash@[k] as int].key == k
                });
            assert(forall|b: int, j: int|
                0 <= b < C_MAX && 0 <= j < self.chains@[b]@.len() ==> {
                    &&& (#[trigger] self.chains@[b]@[j] as int) < self.entries@.len()
                    &&& self.chains@[b]@[j] != e
                    &&& self.entries@[self.chains@[b]@[j] as int].count == b
                });
            assert forall|i: usize|
                (i as int) < self.entries@.len() && i != e && self.entries@[i as int].count
                    < C_MAX implies #[trigger] self.chains@[self.entries@[i as int].count as int]@
                .contains(i) by {
                let bi = self.entries@[i as int].count as int;
                assert(old(self).chains@[bi]@.contains(i));
                let q = choose|q: int|
                    0 <= q < old(self).chains@[bi]@.len() && old(self).chains@[bi]@[q] == i;
                if c < C_MAX && bi == c {
                    let pre = old(self).chains@[c as int]@;
                    let j = choose|j: int|
                        0 <= j < pre.len() && pre[j] == e && (forall|w: int|
                            0 <= w < j ==> pre[w] != e) && self.chains@[c as int]@ == pre.remove(
                            j,
                        );
                    pre.remove_ensures(j);
                    if q < j {
                        assert(self.chains@[bi]@[q] == i);
                    } else {
                        assert(q != j);
                        assert(self.chains@[bi]@[q - 1] == i);
                    }
                } else {
                    assert(self.chains@[bi] == old(self).chains@[bi]);
                }
            }
            assert(self.wf_detached(e));
        }
        e
    }

    /// Install a key that is not present: take a slot (a fresh one during
    /// warmup, the eviction victim's once full), fill it, and link it into
    /// the key index, the recency list and its frequency bucket.
    #[verifier::rlimit(100)]
    #[verifier::spinoff_prover]
    fn insert(&mut self, key: u64, value: V, prio: bool)
        requires
            old(self).wf(),
            !contains_key(old(self)@, key),
        ensures
            final(self).wf(),
            final(self)@ == insert_model(old(self)@, key, value, prio),
    {
        let ghost m = self@;
        proof {
            self.lemma_distinct_keys();
            assert forall|i: int|
                0 <= i < self.entries@.len() implies self.entries@[i].key != key by {
                assert(self.lru@.contains(i as usize));
                let q = choose|q: int|
                    0 <= q < self.lru@.len() && self.lru@[q] == i as usize;
                assert(m.items[q].key == self.entries@[i].key);
            }
        }
        let e: usize;
        if self.lru.len() >= self.capacity {
            e = self.evict();
            let ghost pe = *self;
            let ent = &mut self.entries[e];
            ent.reuse(key, value);
            proof {
                assert(self@.items =~= pe@.items);
                assert forall|b: int|
                    0 <= b < C_MAX implies self@.chains[b] =~= pe@.chains[b] by {
                    assert(forall|j: int|
                        0 <= j < self.chains@[b]@.len() ==> self.chains@[b]@[j] != e);
                }
                assert(self@.chains =~= pe@.chains);
                assert(self.wf_detached(e));
            }
        } else {
            e = self.entries.len();
            self.entries.push(FbrEntry::new(key, value));
            proof {
                assert(self@.items =~= m.items);
                assert forall|b: int|
                    0 <= b < C_MAX implies self@.chains[b] =~= m.chains[b] by {
                    assert(forall|j: int|
                        0 <= j < self.chains@[b]@.len() ==> (self.chains@[b]@[j] as int)
                            < e as int);
                }
                assert(self@.chains =~= m.chains);
                assert(self.wf_detached(e));
            }
        }
        if prio {
            let ent = &mut self.entries[e];
            ent.bump();
        }
        let ghost s1 = *self;
        proof {
            assert(s1.entries@[e as int].key == key);
            assert(s1.entries@[e as int].value == value);
            assert(s1.entries@[e as int].count == if prio {
                1nat
            } else {
                0nat
            });
            if s1.hash@.contains_key(key) {
                let h = s1.hash@[key] as int;
                assert(s1.entries@[h].key == key);
                assert(old(self).entries@[h].key == key);
                assert(false);
            }
        }
        self.hash.insert(key, e);
        self.lru.insert(0, e);
        let b = self.entries[e].count;
        bucket_push(&mut self.chains, b, e);
        proof {
            assert(self.lru@ =~= seq![e] + s1.lru@);
            // the recency list again covers every slot
            assert forall|i: usize|
                (i as int) < self.entries@.len() implies #[trigger] self.lru@.contains(i) by {
                if i == e {
                    assert(self.lru@[0] == i);
                } else {
                    assert(s1.lru@.contains(i));
                    let q = choose|q: int| 0 <= q < s1.lru@.len() && s1.lru@[q] == i;
                    assert(self.lru@[q + 1] == i);
                }
            }
            // each slot still sits in the bucket of its count
            assert forall|i: usize|
                (i as int) < self.entries@.len() && self.entries@[i as int].count < C_MAX
                    implies #[trigger] self.chains@[self.entries@[i as int].count as int]@
                .contains(i) by {
                let bi = self.entries@[i as int].count as int;
                if i == e {
                    assert(self.chains@[bi]@[0] == i);
                } else {
                    assert(s1.chains@[bi]@.contains(i));
                    let q = choose|q: int|
                        0 <= q < s1.chains@[bi]@.len() && s1.chains@[bi]@[q] == i;
                    if bi == b as int {
                        assert(self.chains@[bi]@[q + 1] == i);
                    } else {
                        assert(self.chains@[bi]@[q] == i);
                    }
                }
            }
            assert(self.wf());
            // and the state is exactly the model's insertion
            let target = insert_model(m, key, value, prio);
            assert(self@.items =~= target.items);
            assert forall|bb: int| 0 <= bb < C_MAX implies self@.chains[bb] =~= target.chains[bb]
                by {
                if bb == b as int {
                    assert(self.chains@[bb]@ =~= seq![e] + s1.chains@[bb]@);
                }
            }
            assert(self@.chains =~= target.chains);
            assert(self@ == target);
        }
    }

    /// The aging pass: walk the recency list front to back, halve every
    /// count, subtract what was lost from the running total (never below
    /// zero), and re-home every entry to the bucket of its new count. The
    /// list order itself is untouched and nothing is evicted.
    fn age_entries(&mut self)
        requires
            old(self).wf0(),
        ensures
            final(self).wf0(),
            final(self).lru@ == old(self).lru@,
            final(self).entries@.len() == old(self).entries@.len(),
            final(self).capacity == old(self).capacity,
            final(self).mid_size == old(self).mid_size,
            final(self).old_start == old(self).old_start,
            final(self).age_threshold == old(self).age_threshold,
            final(self)@.items == aged_items(old(self)@.items),
            final(self)@.total == (if old(self)@.total >= age_debit(old(self)@.items) {
                (old(self)@.total - age_debit(old(self)@.items)) as nat
            } else {
                0nat
            }),
    {
        let ghost m = self@;
        let n = self.lru.len();
        let mut p: usize = 0;
        while p < n
            invariant
                old(self).wf0(),
                m == old(self)@,
                m.items.len() == n as int,
                n == self.lru@.len(),
                p <= n,
                self.entries@.len() == old(self).entries@.len(),
                self.lru@ == old(self).lru@,
                self.capacity == old(self).capacity,
                self.mid_size == old(self).mid_size,
                self.old_start == old(self).old_start,
                self.age_threshold == old(self).age_threshold,
                self.hash == old(self).hash,
                C_MAX >= 2,
                forall|q: int|
                    #![trigger old(self).lru@[q]]
                    0 <= q < p ==> {
                        let i = old(self).lru@[q] as int;
                        &&& self.entries@[i].key == old(self).entries@[i].key
                        &&& self.entries@[i].value == old(self).entries@[i].value
                        &&& self.entries@[i].count == old(self).entries@[i].count / 2
                    },
                forall|q: int|
                    p <= q < n ==> #[trigger] self.entries@[old(self).lru@[q] as int] == old(
                        self,
                    ).entries@[old(self).lru@[q] as int],
                self.chains@.len() == C_MAX,
                forall|b: int, j: int|
                    0 <= b < C_MAX && 0 <= j < self.chains@[b]@.len() ==> {
                        &&& (#[trigger] self.chains@[b]@[j] as int) < n
                        &&& self.entries@[self.chains@[b]@[j] as int].count == b
                    },
                forall|b: int, j1: int, j2: int|
                    0 <= b < C_MAX && 0 <= j1 < j2 < self.chains@[b]@.len() ==> self.chains@[b]@[j1]
                        != self.chains@[b]@[j2],
                forall|i: usize|
                    (i as int) < n && self.entries@[i as int].count < C_MAX
                        ==> #[trigger] self.chains@[self.entries@[i as int].count as int]@.contains(
                        i,
                    ),
                self.total_count as nat == (if m.total >= age_debit(
                    m.items.subrange(0, p as int),
                ) {
                    (m.total - age_debit(m.items.subrange(0, p as int))) as nat
                } else {
                    0nat
                }),
            decreases n - p,
        {
            let e = self.lru[p];
            proof {
                assert(self.entries@[e as int] == old(self).entries@[e as int]);
            }
            let ghost pre = *self;
            let c_old = self.entries[e].count;
            let ent = &mut self.entries[e];
            let delta = ent.age();
            if self.total_count >= delta {
                self.total_count = self.total_count - delta;
            } else {
                self.total_count = 0;
            }
            proof {
                let prefix = m.items.subrange(0, p as int);
                let longer = m.items.subrange(0, p as int + 1);
                assert(longer =~= prefix.push(m.items[p as int]));
                crate::model::lemma_age_debit_push(prefix, m.items[p as int]);
                assert(m.items[p as int].count == c_old as nat);
                assert(self.chains@ == pre.chains@);
                if c_old < C_MAX {
                    assert(pre.entries@[e as int].count == c_old);
                    assert(self.chains@[c_old as int]@.contains(e));
                }
            }
            if c_old < C_MAX {
                bucket_remove(&mut self.chains, c_old, e);
            }
            let ghost mid = self.chains@;
            let c_new = self.entries[e].count;
            if c_new < C_MAX {
                proof {
                    // `e` left its old bucket and sits in no other
                    assert forall|j: int|
                        0 <= j < self.chains@[c_new as int]@.len() implies self.chains@[
                        c_new as int]@[j] != e by {
                        if c_old < C_MAX && c_new == c_old {
                            let prec = pre.chains@[c_old as int]@;
                            let jj = choose|jj: int|
                                0 <= jj < prec.len() && prec[jj] == e && (forall|w: int|
                                    0 <= w < jj ==> prec[w] != e) && self.chains@[c_old as int]@
                                    == prec.remove(jj);
                            prec.remove_ensures(jj);
                            assert(forall|w1: int, w2: int|
                                0 <= w1 < w2 < prec.len() ==> prec[w1] != prec[w2]);
                        } else {
                            assert(pre.entries@[self.chains@[c_new as int]@[j] as int].count
                                != c_old || self.chains@[c_new as int]@[j] != e);
                        }
                    }
                }
                bucket_push(&mut self.chains, c_new, e);
            }
            p = p + 1;
            proof {
                // membership survives the re-homing
                assert forall|i: usize|
                    (i as int) < n && self.entries@[i as int].count < C_MAX
                        implies #[trigger] self.chains@[self.entries@[i as int].count as int]@
                    .contains(i) by {
                    let bi = self.entries@[i as int].count as int;
                    if i == e {
                        assert(self.chains@[bi]@[0] == i);
                    } else {
                        assert(pre.chains@[bi]@.contains(i));
                        let q = choose|q: int|
                            0 <= q < pre.chains@[bi]@.len() && pre.chains@[bi]@[q] == i;
                        if c_old < C_MAX && bi == c_old {
                            let prec = pre.chains@[c_old as int]@;
                            let jj = choose|jj: int|
                                0 <= jj < prec.len() && prec[jj] == e && (forall|w: int|
                                    0 <= w < jj ==> prec[w] != e) && mid[c_old as int]@
                                    == prec.remove(jj);
                            prec.remove_ensures(jj);
                            if q < jj {
                                assert(mid[bi]@[q] == i);
                            } else {
                                assert(q != jj);
                                assert(mid[bi]@[q - 1] == i);
                            }
                        } else {
                            assert(mid[bi]@ == pre.chains@[bi]@);
                        }
                        if c_new < C_MAX && bi == c_new as int {
                            assert(mid[bi]@.contains(i));
                            let w = choose|w: int| 0 <= w < mid[bi]@.len() && mid[bi]@[w] == i;
                            assert(self.chains@[bi]@[w + 1] == i);
                        } else {
                            assert(self.chains@[bi]@ == mid[bi]@);
                        }
                    }
                }
            }
        }
        proof {
            assert(m.items.subrange(0, n as int) =~= m.items);
            assert forall|i: int| 0 <= i < n implies {
                &&& self.entries@[i].key == old(self).entries@[i].key
                &&& self.entries@[i].value == old(self).entries@[i].value
                &&& self.entries@[i].count == old(self).entries@[i].count / 2
            } by {
                assert(old(self).lru@.contains(i as usize));
                let q = choose|q: int|
                    0 <= q < old(self).lru@.len() && old(self).lru@[q] == i as usize;
                assert(old(self).lru@[q] == i as usize);
            }
            assert(self@.items =~= aged_items(m.items));
            assert(self.wf0());
        }
    }

    /// The mutating half of a lookup: on a hit, bump the count, re-home the
    /// bucket, promote the entry to the front of the recency list, grow the
    /// running total and, past the threshold, run the aging pass. Returns
    /// the slot of the hit.
    #[verifier::rlimit(100)]
    #[verifier::spinoff_prover]
    fn get_update(&mut self, key: u64) -> (r: Option<usize>)
        requires
            old(self).wf(),
        ensures
            final(self).wf(),
            match r {
                None => {
                    &&& !contains_key(old(self)@, key)
                    &&& *final(self) == *old(self)
                },
                Some(e) => {
                    &&& contains_key(old(self)@, key)
                    &&& (e as int) < final(self).entries@.len()
                    &&& final(self).entries@[e as int].key == key
                    &&& final(self).entries@[e as int].value == old(self)@.items[key_pos(
                        old(self)@,
                        key,
                    )].value
                    &&& ({
                        let t = touch_model(old(self)@, key);
                        if !will_age(t) {
                            final(self)@ == t
                        } else {
                            &&& final(self)@.items == aged_items(t.items)
                            &&& final(self)@.total == aged_total(t)
                            &&& final(self)@.capacity == t.capacity
                            &&& final(self)@.mid_size == t.mid_size
                            &&& final(self)@.old_start == t.old_start
                            &&& final(self)@.threshold == t.threshold
                            &&& final(self)@.cmax == t.cmax
                        }
                    })
                },
            },
    {
        proof {
            self.lemma_distinct_keys();
        }
        let ghost m = self@;
        let e: usize = match self.hash.get(&key) {
            Some(i) => *i,
            None => {
                proof {
                    if contains_key(m, key) {
                        let p = key_pos(m, key);
                        assert(self.hash@.contains_key(self.entries@[self.lru@[p] as int].key));
                        assert(false);
                    }
                }
                return None;
            },
        };
        proof {
            assert(self.hash@.contains_key(key) && self.hash@[key] == e);
            assert(self.lru@.contains(e));
        }
        let pos = find_in(&self.lru, e);
        proof {
            assert(m.items[pos as int].key == key);
            lemma_key_pos_of(m, pos as int);
        }
        let prior = self.region_at(pos);
        let ghost pre = *self;
        let c_old: usize;
        {
            let ent = &mut self.entries[e];
            c_old = ent.access(prior);
        }
        let c_new = self.entries[e].count;
        proof {
            assert(c_old <= c_new <= c_old + 1);
            // keys are untouched, so the buckets' view is unchanged
            assert forall|b: int| 0 <= b < C_MAX implies self@.chains[b] =~= pre@.chains[b] by {
                assert(forall|j: int|
                    0 <= j < self.chains@[b]@.len()
                        ==> self.entries@[#[trigger] self.chains@[b]@[j] as int].key
                        == pre.entries@[self.chains@[b]@[j] as int].key);
            }
            if c_old < C_MAX {
                assert(pre.entries@[e as int].count == c_old);
                assert(self.chains@[c_old as int]@.contains(e));
            }
        }
        let ghost s1 = *self;
        if c_old < C_MAX {
            bucket_remove(&mut self.chains, c_old, e);
        }
        let ghost mid = self.chains@;
        if c_new < C_MAX {
            proof {
                assert forall|j: int|
                    0 <= j < self.chains@[c_new as int]@.len() implies self.chains@[c_new as int]@[j]
                    != e by {
                    if c_old < C_MAX && c_new == c_old {
                        let prec = s1.chains@[c_old as int]@;
                        let jj = choose|jj: int|
                            0 <= jj < prec.len() && prec[jj] == e && (forall|w: int|
                                0 <= w < jj ==> prec[w] != e) && self.chains@[c_old as int]@
                                == prec.remove(jj);
                        prec.remove_ensures(jj);
                        assert(forall|w1: int, w2: int|
                            0 <= w1 < w2 < prec.len() ==> prec[w1] != prec[w2]);
                    } else {
                        assert(s1.entries@[self.chains@[c_new as int]@[j] as int].count != c_old
                            || self.chains@[c_new as int]@[j] != e);
                    }
                }
            }
            bucket_push(&mut self.chains, c_new, e);
        }
        self.lru.remove(pos);
        self.lru.insert(0, e);
        let inc = c_new - c_old;
        if self.total_count <= usize::MAX - inc {
            self.total_count = self.total_count + inc;
        } else {
            self.total_count = usize::MAX;
        }
        proof {
            let t = touch_model(m, key);
            assert(self.lru@ =~= seq![e] + pre.lru@.remove(pos as int));
            assert(self@.items =~= t.items);
            // the bucket rearrangement matches the model's re-homing
            if c_old < C_MAX {
                let prec = s1.chains@[c_old as int]@;
                let jj = choose|jj: int|
                    0 <= jj < prec.len() && prec[jj] == e && (forall|w: int|
                        0 <= w < jj ==> prec[w] != e) && mid[c_old as int]@ == prec.remove(jj);
                let mk = m.chains[c_old as int];
                assert(mk[jj] == key);
                assert forall|q: int| 0 <= q < mk.len() && q != jj implies mk[q] != key by {
                    assert(prec[q] != prec[jj]);
                }
                mk.index_of_first_ensures(key);
                assert(mk.index_of_first(key) == Some(jj));
                assert(mk.remove_value(key) =~= prec.remove(jj).map_values(
                    |x: usize| pre.entries@[x as int].key,
                ));
            }
            assert forall|b: int| 0 <= b < C_MAX implies self@.chains[b] =~= t.chains[b] by {
                assert(forall|j: int|
                    0 <= j < self.chains@[b]@.len()
                        ==> self.entries@[#[trigger] self.chains@[b]@[j] as int].key
                        == pre.entries@[self.chains@[b]@[j] as int].key);
                if c_new < C_MAX && b == c_new as int {
                    assert(self.chains@[b]@ =~= seq![e] + mid[b]@);
                }
            }
            assert(self@.chains =~= t.chains);
            assert(self@ == t);
            // the indices are coupled again
            assert forall|i: usize|
                (i as int) < self.entries@.len() implies #[trigger] self.lru@.contains(i) by {
                if i == e {
                    assert(self.lru@[0] == i);
                } else {
                    assert(pre.lru@.contains(i));
                    let q = choose|q: int| 0 <= q < pre.lru@.len() && pre.lru@[q] == i;
                    pre.lru@.remove_ensures(pos as int);
                    if q < pos {
                        assert(self.lru@[q + 1] == i);
                    } else {
                        assert(q != pos);
                        assert(self.lru@[q] == i);
                    }
                }
            }
            assert forall|i: usize|
                (i as int) < self.entries@.len() && self.entries@[i as int].count < C_MAX
                    implies #[trigger] self.chains@[self.entries@[i as int].count as int]@.contains(
                i,
            ) by {
                let bi = self.entries@[i as int].count as int;
                if i == e {
                    assert(self.chains@[bi]@[0] == i);
                } else {
                    assert(s1.chains@[bi]@.contains(i));
                    let q = choose|q: int|
                        0 <= q < s1.chains@[bi]@.len() && s1.chains@[bi]@[q] == i;
                    if c_old < C_MAX && bi == c_old as int {
                        let prec = s1.chains@[c_old as int]@;
                        let jj = choose|jj: int|
                            0 <= jj < prec.len() && prec[jj] == e && (forall|w: int|
                                0 <= w < jj ==> prec[w] != e) && mid[c_old as int]@ == prec.remove(
                                jj,
                            );
                        prec.remove_ensures(jj);
                        if q < jj {
                            assert(mid[bi]@[q] == i);
                        } else {
                            assert(q != jj);
                            assert(mid[bi]@[q - 1] == i);
                        }
                    } else {
                        assert(mid[bi]@ == s1.chains@[bi]@);
                    }
                    if c_new < C_MAX && bi == c_new as int {
                        assert(mid[bi]@.contains(i));
                        let w = choose|w: int| 0 <= w < mid[bi]@.len() && mid[bi]@[w] == i;
                        assert(self.chains@[bi]@[w + 1] == i);
                    } else {
                        assert(self.chains@[bi]@ == mid[bi]@);
                    }
                }
            }
            assert(self.wf0());
        }
        if self.total_count > self.age_threshold {
            let ghost t = touch_model(m, key);
            proof {
                assert(t.items[0].count >= 1);
                assert(age_debit(t.items) >= t.items[0].count - t.items[0].count / 2);
            }
            self.age_entries();
            proof {
                assert(self.total_count <= self.age_threshold);
                assert(self.lru@[0] == e);
                assert(self.entries@[e as int].key == self@.items[0].key);
                assert(self.entries@[e as int].value == self@.items[0].value);
                assert(self@.items[0] == aged_items(t.items)[0]);
                assert(aged_items(t.items)[0].value == t.items[0].value);
                assert(t.items[0].value == m.items[pos as int].value);
            }
        }
        Some(e)
    }

    /// Retrieve the value for a given key.
    ///
    /// This updates the usage count and recency, so it can be used to
    /// "ping" a key in order to bring it to the front again. A miss leaves
    /// the cache untouched.
    pub fn get(&mut self, key: &u64) -> (r: Option<&V>)
        requires
            old(self).wf(),
        ensures
            final(self).wf(),
            match r {
                None => {
                    &&& !contains_key(old(self)@, *key)
                    &&& final(self)@ == old(self)@
                },
                Some(v) => {
                    &&& contains_key(old(self)@, *key)
                    &&& *v == old(self)@.items[key_pos(old(self)@, *key)].value
                    &&& ({
                        let t = touch_model(old(self)@, *key);
                        if !will_age(t) {
                            final(self)@ == t
                        } else {
                            &&& final(self)@.items == aged_items(t.items)
                            &&& final(self)@.total == aged_total(t)
                            &&& final(self)@.capacity == t.capacity
                            &&& final(self)@.mid_size == t.mid_size
                            &&& final(self)@.old_start == t.old_start
                            &&& final(self)@.threshold == t.threshold
                            &&& final(self)@.cmax == t.cmax
                        }
                    })
                },
            },
    {
        match self.get_update(*key) {
            Some(e) => Some(&self.entries[e].value),
            None => None,
        }
    }

    /// Put the given item into the cache, evicting another item if
    /// necessary.
    ///
    /// A key that is already present is refreshed exactly as by `get`; the
    /// stored value is deliberately *not* replaced.
    pub fn put(&mut self, key: u64, value: V)
        requires
            old(self).wf(),
        ensures
            final(self).wf(),
            !contains_key(old(self)@, key) ==> final(self)@ == insert_model(
                old(self)@,
                key,
                value,
                false,
            ),
            contains_key(old(self)@, key) ==> ({
                let t = touch_model(old(self)@, key);
                if !will_age(t) {
                    final(self)@ == t
                } else {
                    &&& final(self)@.items == aged_items(t.items)
                    &&& final(self)@.total == aged_total(t)
                    &&& final(self)@.capacity == t.capacity
                    &&& final(self)@.mid_size == t.mid_size
                    &&& final(self)@.old_start == t.old_start
                    &&& final(self)@.threshold == t.threshold
                    &&& final(self)@.cmax == t.cmax
                }
            }),
    {
        if self.get(&key).is_some() {
            return ;
        }
        self.insert(key, value, false);
    }

    /// Put the given item into the cache with elevated priority: it starts
    /// with a usage count of one instead of zero, so while the cache is
    /// cold it outranks fresh zero-count insertions during eviction.
    ///
    /// A key that is already present is refreshed exactly as by `get`.
    pub fn put_prio(&mut self, key: u64, value: V)
        requires
            old(self).wf(),
        ensures
            final(self).wf(),
            !contains_key(old(self)@, key) ==> final(self)@ == insert_model(
                old(self)@,
                key,
                value,
                true,
            ),
            contains_key(old(self)@, key) ==> ({
                let t = touch_model(old(self)@, key);
                if !will_age(t) {
                    final(self)@ == t
                } else {
                    &&& final(self)@.items == aged_items(t.items)
                    &&& final(self)@.total == aged_total(t)
                    &&& final(self)@.capacity == t.capacity
                    &&& final(self)@.mid_size == t.mid_size
                    &&& final(self)@.old_start == t.old_start
                    &&& final(self)@.threshold == t.threshold
                    &&& final(self)@.cmax == t.cmax
                }
            }),
    {
        if self.get(&key).is_some() {
            return ;
        }
        self.insert(key, value, true);
    }

    /// All currently held items together with their usage count and region,
    /// most recently used first.
    pub fn iter(&self) -> (out: Vec<(u64, &V, usize, Region)>)
        requires
            self.wf(),
        ensures
            out@.len() == self@.items.len(),
            forall|p: int|
                0 <= p < out@.len() ==> {
                    &&& (#[trigger] out@[p]).0 == self@.items[p].key
                    &&& *out@[p].1 == self@.items[p].value
                    &&& out@[p].2 == self@.items[p].count
                    &&& out@[p].3 == region_of(
                        p,
                        self@.items.len() as int,
                        self@.mid_size as int,
                        self@.old_start as int,
                    )
                },
    {
        let mut out: Vec<(u64, &V, usize, Region)> = Vec::new();
        let mut p: usize = 0;
        while p < self.lru.len()
            invariant
                self.wf(),
                p <= self.lru@.len(),
                out@.len() == p as int,
                forall|q: int|
                    0 <= q < p ==> {
                        &&& (#[trigger] out@[q]).0 == self@.items[q].key
                        &&& *out@[q].1 == self@.items[q].value
                        &&& out@[q].2 == self@.items[q].count
                        &&& out@[q].3 == region_of(
                            q,
                            self@.items.len() as int,
                            self@.mid_size as int,
                            self@.old_start as int,
                        )
                    },
            decreases self.lru@.len() - p,
        {
            let e = self.lru[p];
            let r = self.region_at(p);
            let ent = &self.entries[e];
            out.push((ent.key, &ent.value, ent.count, r));
            p = p + 1;
        }
        out
    }

    /// The coupling invariant, seen at the model level: unique keys, every
    /// entry with a small count in exactly the bucket of its count, the
    /// running total within the threshold.
    pub proof fn lemma_model_wf(&self)
        requires
            self.wf(),
        ensures
            model_wf(self@),
    {
        let m = self@;
        let n = self.entries@.len() as int;
        self.lemma_distinct_keys();
        assert forall|b: int, j: int|
            0 <= b < m.cmax && 0 <= j < m.chains[b].len() implies {
            let k = #[trigger] m.chains[b][j];
            contains_key(m, k) && m.items[key_pos(m, k)].count == b
        } by {
            let i = self.chains@[b]@[j];
            assert(self.lru@.contains(i));
            let q = choose|q: int| 0 <= q < self.lru@.len() && self.lru@[q] == i;
            assert(m.items[q].key == self.entries@[i as int].key);
            lemma_key_pos_of(m, q);
        }
        assert forall|b: int, j1: int, j2: int|
            0 <= b < m.cmax && 0 <= j1 < j2 < m.chains[b].len() implies m.chains[b][j1]
            != m.chains[b][j2] by {
            let i1 = self.chains@[b]@[j1];
            let i2 = self.chains@[b]@[j2];
            assert(i1 != i2);
            assert(self.entries@[i1 as int].key != self.entries@[i2 as int].key);
        }
        assert forall|p: int|
            0 <= p < m.items.len() && m.items[p].count < m.cmax implies #[trigger] m.chains[
        m.items[p].count as int].contains(m.items[p].key) by {
            let i = self.lru@[p];
            let c = self.entries@[i as int].count;
            assert(self.chains@[c as int]@.contains(i));
            let w = choose|w: int|
                0 <= w < self.chains@[c as int]@.len() && self.chains@[c as int]@[w] == i;
            assert(m.chains[c as int][w] == m.items[p].key);
        }
    }

    /// The number of items currently in the cache.
    pub fn len(&self) -> (n: usize)
        requires
            self.wf(),
        ensures
            n == self@.items.len(),
    {
        self.lru.len()
    }

    /// Returns `true` if there are no items in the cache.
    pub fn is_empty(&self) -> (r: bool)
        requires
            self.wf(),
        ensures
            r <==> self@.items.len() == 0,
    {
        self.lru.len() == 0
    }

    /// Count increments since the last aging pass.
    pub fn total_count(&self) -> (t: usize)
        requires
            self.wf(),
        ensures
            t == self@.total,
    {
        self.total_count
    }

    /// Clears all items from the cache, dropping every held value.
    pub fn clear(&mut self)
        requires
            old(self).wf(),
        ensures
            final(self).wf(),
            final(self)@.items == Seq::<Item<V>>::empty(),
            final(self)@.total == 0,
            final(self)@.capacity == old(self)@.capacity,
            final(self)@.threshold == old(self)@.threshold,
            forall|b: int| 0 <= b < C_MAX ==> (#[trigger] final(self)@.chains[b]).len() == 0,
    {
        self.lru.clear();
        self.entries.clear();
        self.chains = make_chains(C_MAX);
        self.total_count = 0;
        self.hash.clear();
        proof {
            assert(self@.items =~= Seq::<Item<V>>::empty());
        }
    }
}

impl<V, const C_MAX: usize> FbrCache<V, C_MAX> {
    /// Create a new cache with the given capacity and the default aging
    /// parameter of 100.
    pub fn new(capacity: usize) -> (c: Self)
        requires
            C_MAX >= 2,
            capacity >= 4,
        ensures
            c.wf(),
            c@.items.len() == 0,
            c@.capacity == capacity,
            c@.cmax == C_MAX,
            c@.total == 0,
    {
        Self::with_age_threshold(capacity, 100)
    }

    /// Create a new cache with the given capacity and aging threshold. The
    /// aging pass runs once the cumulative count increments exceed
    /// `capacity * age_threshold` (saturating at the machine limit).
    pub fn with_age_threshold(capacity: usize, age_threshold: usize) -> (c: Self)
        requires
            C_MAX >= 2,
            capacity >= 4,
            age_threshold >= 1,
        ensures
            c.wf(),
            c@.items.len() == 0,
            c@.capacity == capacity,
            c@.mid_size == capacity as nat * 3 / 10,
            c@.old_start == capacity as nat * 3 / 4,
            c@.threshold == if capacity as nat * age_threshold as nat <= usize::MAX as nat {
                capacity as nat * age_threshold as nat
            } else {
                usize::MAX as nat
            },
            c@.cmax == C_MAX,
            c@.total == 0,
            forall|b: int| 0 <= b < C_MAX ==> (#[trigger] c@.chains[b]).len() == 0,
    {
        let mid_size = mul3_div(capacity, 10);
        let old_start = mul3_div(capacity, 4);
        proof {
            lemma_regions_ordered(capacity as int);
        }
        let threshold = saturating_mul(capacity, age_threshold);
        let chains = make_chains(C_MAX);
        FbrCache {
            hash: HashMap::new(),
            entries: Vec::new(),
            lru: Vec::new(),
            chains,
            mid_size,
            old_start,
            total_count: 0,
            capacity,
            age_threshold: threshold,
        }
    }
}

/// Position of `x` in `v`; `v` must hold it.
fn find_in(v: &Vec<usize>, x: usize) -> (p: usize)
    requires
        v@.contains(x),
    ensures
        p < v@.len(),
        v@[p as int] == x,
        forall|q: int| 0 <= q < p ==> v@[q] != x,
{
    let mut p: usize = 0;
    while p < v.len()
        invariant
            p <= v@.len(),
            v@.contains(x),
            forall|q: int| 0 <= q < p ==> v@[q] != x,
        decreases v@.len() - p,
    {
        if v[p] == x {
            return p;
        }
        p = p + 1;
    }
    proof {
        let w = choose|w: int| 0 <= w < v@.len() && v@[w] == x;
        assert(false);
    }
    0
}

/// Remove the one occurrence of `e` from bucket `b`.
fn bucket_remove(chains: &mut Vec<Vec<usize>>, b: usize, e: usize)
    requires
        b < old(chains)@.len(),
        old(chains)@[b as int]@.contains(e),
    ensures
        final(chains)@.len() == old(chains)@.len(),
        forall|i: int|
            0 <= i < old(chains)@.len() && i != b ==> final(chains)@[i] == old(chains)@[i],
        exists|j: int|
            {
                &&& 0 <= j < old(chains)@[b as int]@.len()
                &&& old(chains)@[b as int]@[j] == e
                &&& (forall|q: int| 0 <= q < j ==> old(chains)@[b as int]@[q] != e)
                &&& final(chains)@[b as int]@ == old(chains)@[b as int]@.remove(j)
            },
{
    let j = find_in(&chains[b], e);
    let ch = &mut chains[b];
    ch.remove(j);
}

/// Push `e` to the front of bucket `b`.
fn bucket_push(chains: &mut Vec<Vec<usize>>, b: usize, e: usize)
    requires
        b < old(chains)@.len(),
    ensures
        final(chains)@.len() == old(chains)@.len(),
        forall|i: int|
            0 <= i < old(chains)@.len() && i != b ==> final(chains)@[i] == old(chains)@[i],
        final(chains)@[b as int]@ == seq![e] + old(chains)@[b as int]@,
{
    let ghost pre = chains@[b as int]@;
    let ch = &mut chains[b];
    ch.insert(0, e);
    proof {
        assert(chains@[b as int]@ =~= seq![e] + pre);
    }
}

/// A row of `n` empty frequency buckets.
fn make_chains(n: usize) -> (v: Vec<Vec<usize>>)
    ensures
        v@.len() == n,
        forall|j: int| 0 <= j < n ==> (#[trigger] v@[j])@.len() == 0,
{
    let mut v: Vec<Vec<usize>> = Vec::new();
    while v.len() < n
        invariant
            v@.len() <= n,
            forall|j: int| 0 <= j < v@.len() ==> (#[trigger] v@[j])@.len() == 0,
        decreases n - v@.len(),
    {
        v.push(Vec::new());
    }
    v
}

/// `x * 3 / d` without overflow for any `usize` x.
fn mul3_div(x: usize, d: usize) -> (r: usize)
    requires
        d == 10 || d == 4,
    ensures
        r == x as int * 3 / d as int,
{
    let wide: u128 = x as u128 * 3 / d as u128;
    proof {
        assert(x as int * 3 / d as int <= x as int) by {
            vstd::arithmetic::div_mod::lemma_fundamental_div_mod(x as int * 3, d as int);
        }
    }
    wide as usize
}

/// `a * b`, saturating at `usize::MAX`.
fn saturating_mul(a: usize, b: usize) -> (r: usize)
    ensures
        r == if a as nat * b as nat <= usize::MAX as nat {
            a as nat * b as nat
        } else {
            usize::MAX as nat
        },
{
    if b == 0 {
        proof {
            vstd::arithmetic::mul::lemma_mul_basics(a as int);
        }
        return 0;
    }
    let q = usize::MAX / b;
    proof {
        vstd::arithmetic::div_mod::lemma_fundamental_div_mod(usize::MAX as int, b as int);
        vstd::arithmetic::div_mod::lemma_mod_bound(usize::MAX as int, b as int);
        vstd::arithmetic::mul::lemma_mul_is_commutative(a as int, b as int);
        vstd::arithmetic::mul::lemma_mul_is_commutative(q as int, b as int);
    }
    if a > q {
        proof {
            vstd::arithmetic::mul::lemma_mul_inequality(q as int + 1, a as int, b as int);
            vstd::arithmetic::mul::lemma_mul_is_distributive_add_other_way(
                b as int,
                q as int,
                1,
            );
            vstd::arithmetic::mul::lemma_mul_basics(b as int);
        }
        usize::MAX
    } else {
        proof {
            vstd::arithmetic::mul::lemma_mul_inequality(a as int, q as int, b as int);
        }
        a * b
    }
}

/// For any capacity of at least 4, the Middle region starts strictly before
/// the Old region, which starts strictly before the end of the list.
proof fn lemma_regions_ordered(c: int)
    requires
        c >= 4,
    ensures
        c * 3 / 10 < c * 3 / 4,
        c * 3 / 4 < c,
{
    vstd::arithmetic::div_mod::lemma_fundamental_div_mod(c * 3, 10);
    vstd::arithmetic::div_mod::lemma_fundamental_div_mod(c * 3, 4);
}

} // verus!
