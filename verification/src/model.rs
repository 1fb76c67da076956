//! Abstract state of the cache, used by every public contract.
//!
//! The model keeps the live entries as a sequence in recency order (most
//! recently used first), the frequency buckets as sequences of keys, the
//! running count total and the configuration constants.

use vstd::prelude::*;
use crate::Region;

verus! {

/// One live entry: its key, its value and its reference count.
pub struct Item<V> {
    pub key: u64,
    pub value: V,
    pub count: nat,
}

/// The whole cache state, abstracted.
pub struct FbrModel<V> {
    /// Live entries, most recently used first.
    pub items: Seq<Item<V>>,
    /// Frequency buckets: `chains[b]` holds the keys of the entries whose
    /// count is exactly `b`, most recently re-homed first.
    pub chains: Seq<Seq<u64>>,
    /// Count increments since the last aging pass.
    pub total: nat,
    pub capacity: nat,
    pub mid_size: nat,
    pub old_start: nat,
    pub threshold: nat,
    pub cmax: nat,
}

/// Region of the entry at position `pos` of the recency list of length `len`.
/// The regions are prefixes: positions before `mid_size` are New, positions
/// before `old_start` are Middle, the rest are Old; a region exists only once
/// the list has grown past its first position.
pub open spec fn region_of(pos: int, len: int, mid_size: int, old_start: int) -> Region {
    if len > old_start && pos >= old_start {
        Region::Old
    } else if len > mid_size && pos >= mid_size {
        Region::Middle
    } else {
        Region::New
    }
}

pub open spec fn contains_key<V>(m: FbrModel<V>, k: u64) -> bool {
    exists|p: int| 0 <= p < m.items.len() && m.items[p].key == k
}

/// Position of the entry with key `k`; meaningful when the keys are unique
/// and `k` is present.
pub open spec fn key_pos<V>(m: FbrModel<V>, k: u64) -> int {
    choose|p: int| 0 <= p < m.items.len() && m.items[p].key == k
}

/// The value stored under `k`, if any.
pub open spec fn lookup<V>(m: FbrModel<V>, k: u64) -> Option<V> {
    if contains_key(m, k) {
        Some(m.items[key_pos(m, k)].value)
    } else {
        None
    }
}

/// Remove key `k` from bucket `b` (first occurrence; the buckets never hold
/// a key twice).
pub open spec fn chain_without(chains: Seq<Seq<u64>>, b: int, k: u64) -> Seq<Seq<u64>> {
    chains.update(b, chains[b].remove_value(k))
}

/// Push key `k` to the front of bucket `b`.
pub open spec fn chain_push(chains: Seq<Seq<u64>>, b: int, k: u64) -> Seq<Seq<u64>> {
    chains.update(b, seq![k] + chains[b])
}

/// Count after one access outside the New region; saturates at the machine
/// limit instead of overflowing.
pub open spec fn bumped(c: nat) -> nat {
    if c < usize::MAX as nat {
        c + 1
    } else {
        c
    }
}

/// The effect of a cache hit on key `k`, before any aging pass: the count
/// rises by one unless the entry was in the New region, the entry is
/// re-homed to the front of its bucket, it moves to the front of the
/// recency list, and the total grows by the count increment.
pub open spec fn touch_model<V>(m: FbrModel<V>, k: u64) -> FbrModel<V> {
    let p = key_pos(m, k);
    let it = m.items[p];
    let was_new = region_of(p, m.items.len() as int, m.mid_size as int, m.old_start as int)
        == Region::New;
    let newc = if was_new {
        it.count
    } else {
        bumped(it.count)
    };
    let c1 = if it.count < m.cmax {
        chain_without(m.chains, it.count as int, k)
    } else {
        m.chains
    };
    let c2 = if newc < m.cmax {
        chain_push(c1, newc as int, k)
    } else {
        c1
    };
    FbrModel {
        items: seq![Item { key: it.key, value: it.value, count: newc }] + m.items.remove(p),
        chains: c2,
        total: if m.total + (newc - it.count) <= usize::MAX as nat {
            (m.total + (newc - it.count)) as nat
        } else {
            usize::MAX as nat
        },
        ..m
    }
}

/// Whether a hit that produced model `t` triggers the aging pass.
pub open spec fn will_age<V>(t: FbrModel<V>) -> bool {
    t.total > t.threshold
}

/// Counts after the aging pass: every count is halved, rounding down.
pub open spec fn aged_items<V>(items: Seq<Item<V>>) -> Seq<Item<V>> {
    items.map_values(|it: Item<V>| Item { key: it.key, value: it.value, count: it.count / 2 })
}

/// What the aging pass subtracts from the total: the sum over all entries of
/// `count - count / 2`.
pub open spec fn age_debit<V>(items: Seq<Item<V>>) -> nat
    decreases items.len(),
{
    if items.len() == 0 {
        0
    } else {
        (items[0].count - items[0].count / 2) as nat + age_debit(items.drop_first())
    }
}

/// Total after the aging pass; never goes below zero.
pub open spec fn aged_total<V>(t: FbrModel<V>) -> nat {
    if t.total >= age_debit(t.items) {
        (t.total - age_debit(t.items)) as nat
    } else {
        0
    }
}

/// The eviction scan over buckets `b..cmax`: the first bucket whose last
/// (least recently re-homed) key lies in the Old region yields that key.
pub open spec fn victim_key_from<V>(m: FbrModel<V>, b: int) -> Option<u64>
    decreases m.cmax as int - b,
{
    if b < 0 || b >= m.cmax {
        None
    } else if m.chains[b].len() > 0 && region_of(
        key_pos(m, m.chains[b].last()),
        m.items.len() as int,
        m.mid_size as int,
        m.old_start as int,
    ) == Region::Old {
        Some(m.chains[b].last())
    } else {
        victim_key_from(m, b + 1)
    }
}

/// The key the eviction removes: the scan's choice, or failing that the key
/// of the least recently used entry.
pub open spec fn victim_key<V>(m: FbrModel<V>) -> u64 {
    match victim_key_from(m, 0) {
        Some(k) => k,
        None => m.items.last().key,
    }
}

/// The effect of installing a missing key `k` with value `v`: if the cache
/// is not yet full a fresh entry joins the front, otherwise the victim of
/// the eviction rule leaves first. A priority insertion starts at count 1,
/// an ordinary one at count 0.
pub open spec fn insert_model<V>(m: FbrModel<V>, k: u64, v: V, prio: bool) -> FbrModel<V> {
    let c0: nat = if prio {
        1
    } else {
        0
    };
    let fresh = Item { key: k, value: v, count: c0 };
    if m.items.len() < m.capacity {
        FbrModel {
            items: seq![fresh] + m.items,
            chains: chain_push(m.chains, c0 as int, k),
            ..m
        }
    } else {
        let vk = victim_key(m);
        let p = key_pos(m, vk);
        let vic = m.items[p];
        let ca = if vic.count < m.cmax {
            chain_without(m.chains, vic.count as int, vk)
        } else {
            m.chains
        };
        FbrModel {
            items: seq![fresh] + m.items.remove(p),
            chains: chain_push(ca, c0 as int, k),
            ..m
        }
    }
}

/// The aging debit of a sequence grows by the last entry's own debit.
pub proof fn lemma_age_debit_push<V>(items: Seq<Item<V>>, it: Item<V>)
    ensures
        age_debit(items.push(it)) == age_debit(items) + (it.count - it.count / 2),
    decreases items.len(),
{
    if items.len() == 0 {
        assert(items.push(it)[0] == it);
        assert(items.push(it).drop_first() =~= items);
    } else {
        assert(items.push(it).drop_first() =~= items.drop_first().push(it));
        lemma_age_debit_push(items.drop_first(), it);
    }
}

/// With distinct keys, the position of an item's key is that item's
/// position.
pub proof fn lemma_key_pos_of<V>(m: FbrModel<V>, p: int)
    requires
        0 <= p < m.items.len(),
        forall|a: int, b: int| 0 <= a < b < m.items.len() ==> m.items[a].key != m.items[b].key,
    ensures
        contains_key(m, m.items[p].key),
        key_pos(m, m.items[p].key) == p,
{
    let k = m.items[p].key;
    assert(contains_key(m, k));
    let q = choose|q: int| 0 <= q < m.items.len() && m.items[q].key == k;
    if q < p {
        assert(m.items[q].key != m.items[p].key);
    } else if q > p {
        assert(m.items[p].key != m.items[q].key);
    }
}

/// Well-formedness of a model: what holds of the cache after every public
/// call.
pub open spec fn model_wf<V>(m: FbrModel<V>) -> bool {
    &&& m.capacity >= 4
    &&& m.cmax >= 2
    &&& m.mid_size == m.capacity * 3 / 10
    &&& m.old_start == m.capacity * 3 / 4
    &&& m.mid_size < m.old_start < m.capacity
    &&& m.items.len() <= m.capacity
    &&& m.chains.len() == m.cmax
    &&& (forall|p: int, q: int|
        0 <= p < q < m.items.len() ==> m.items[p].key != m.items[q].key)
    &&& (forall|b: int, j: int|
        0 <= b < m.cmax && 0 <= j < m.chains[b].len() ==> {
            let k = #[trigger] m.chains[b][j];
            contains_key(m, k) && m.items[key_pos(m, k)].count == b
        })
    &&& (forall|b: int, j1: int, j2: int|
        0 <= b < m.cmax && 0 <= j1 < j2 < m.chains[b].len() ==> m.chains[b][j1]
            != m.chains[b][j2])
    &&& (forall|p: int|
        0 <= p < m.items.len() && m.items[p].count < m.cmax
            ==> #[trigger] m.chains[m.items[p].count as int].contains(m.items[p].key))
    &&& m.total <= m.threshold
    &&& m.threshold <= usize::MAX as nat
}

} // verus!
