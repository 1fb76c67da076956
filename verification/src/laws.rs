//! Laws relating the public operations, proved over the abstract model.

use vstd::prelude::*;
use crate::Region;
use crate::model::{
    FbrModel, aged_items, contains_key, insert_model, key_pos, lookup, model_wf, region_of,
    touch_model, victim_key, victim_key_from,
};

verus! {

/// Rank of a region along the recency list: New before Middle before Old.
pub open spec fn region_rank(r: Region) -> int {
    match r {
        Region::New => 0,
        Region::Middle => 1,
        Region::Old => 2,
    }
}

/// Along the recency list the regions are non-decreasing: a New prefix,
/// then a Middle run, then an Old suffix.
pub proof fn lemma_regions_monotone(len: int, mid_size: int, old_start: int, p: int, q: int)
    requires
        0 <= mid_size < old_start,
        0 <= p <= q < len,
    ensures
        region_rank(region_of(p, len, mid_size, old_start)) <= region_rank(
            region_of(q, len, mid_size, old_start),
        ),
{
}

/// Every key the eviction scan can name is held by the cache.
proof fn lemma_victim_from_present<V>(m: FbrModel<V>, b: int)
    requires
        model_wf(m),
    ensures
        match victim_key_from(m, b) {
            Some(k) => contains_key(m, k),
            None => true,
        },
    decreases m.cmax as int - b,
{
    if 0 <= b < m.cmax {
        if m.chains[b].len() > 0 && region_of(
            key_pos(m, m.chains[b].last()),
            m.items.len() as int,
            m.mid_size as int,
            m.old_start as int,
        ) == Region::Old {
            assert(contains_key(m, m.chains[b][m.chains[b].len() - 1]));
        } else {
            lemma_victim_from_present(m, b + 1);
        }
    }
}

/// The key the eviction rule removes is present, at a valid position.
pub proof fn lemma_victim_present<V>(m: FbrModel<V>)
    requires
        model_wf(m),
        m.items.len() > 0,
    ensures
        contains_key(m, victim_key(m)),
        0 <= key_pos(m, victim_key(m)) < m.items.len(),
{
    lemma_victim_from_present(m, 0);
    if victim_key_from(m, 0) is None {
        assert(m.items[m.items.len() - 1].key == victim_key(m));
    }
}

/// Eviction never touches the New or Middle regions: in a full cache the
/// key the eviction rule removes lies in the Old region, whichever tier
/// picked it.
pub proof fn lemma_victim_in_old<V>(m: FbrModel<V>)
    requires
        model_wf(m),
        m.items.len() >= m.capacity,
    ensures
        region_of(
            key_pos(m, victim_key(m)),
            m.items.len() as int,
            m.mid_size as int,
            m.old_start as int,
        ) == Region::Old,
{
    lemma_victim_present(m);
    lemma_victim_from_old(m, 0);
    if victim_key_from(m, 0) is None {
        let last = m.items.len() - 1;
        assert(m.items[last].key == victim_key(m));
        let p = key_pos(m, victim_key(m));
        if p != last {
            if p < last {
                assert(m.items[p].key != m.items[last].key);
            }
            assert(false);
        }
    }
}

/// In the scan's successful case the chosen key's region is Old by the
/// scan's own test.
proof fn lemma_victim_from_old<V>(m: FbrModel<V>, b: int)
    requires
        model_wf(m),
    ensures
        match victim_key_from(m, b) {
            Some(k) => region_of(
                key_pos(m, k),
                m.items.len() as int,
                m.mid_size as int,
                m.old_start as int,
            ) == Region::Old,
            None => true,
        },
    decreases m.cmax as int - b,
{
    if 0 <= b < m.cmax {
        if m.chains[b].len() > 0 && region_of(
            key_pos(m, m.chains[b].last()),
            m.items.len() as int,
            m.mid_size as int,
            m.old_start as int,
        ) == Region::Old {
        } else {
            lemma_victim_from_old(m, b + 1);
        }
    }
}

/// A hit inside the New region leaves the count alone and still promotes
/// the entry to the front of the recency list.
pub proof fn lemma_new_region_hit<V>(m: FbrModel<V>, k: u64)
    requires
        model_wf(m),
        contains_key(m, k),
        region_of(
            key_pos(m, k),
            m.items.len() as int,
            m.mid_size as int,
            m.old_start as int,
        ) == Region::New,
    ensures
        touch_model(m, k).items[0].key == k,
        touch_model(m, k).items[0].count == m.items[key_pos(m, k)].count,
        touch_model(m, k).total == m.total,
{
}

/// Installing a missing key makes it present, under exactly the value that
/// was handed in: a miss followed by `put` makes the next `get` return the
/// new value.
pub proof fn lemma_put_then_get<V>(m: FbrModel<V>, k: u64, v: V, prio: bool)
    requires
        model_wf(m),
        !contains_key(m, k),
    ensures
        contains_key(insert_model(m, k, v, prio), k),
        lookup(insert_model(m, k, v, prio), k) == Some(v),
{
    let m2 = insert_model(m, k, v, prio);
    assert(m2.items[0].key == k);
    assert(contains_key(m2, k));
    let q = key_pos(m2, k);
    if q != 0 {
        if m.items.len() < m.capacity {
            assert(m.items[q - 1].key == k);
        } else {
            lemma_victim_present(m);
            let p = key_pos(m, victim_key(m));
            let rest = m.items.remove(p);
            rest.remove_ensures(p);
            assert(rest[q - 1].key == k);
            if q - 1 < p {
                assert(m.items[q - 1].key == k);
            } else {
                assert(m.items[q].key == k);
            }
        }
        assert(false);
    }
}

/// Refreshing a present key (as `put` and `get` do) keeps its stored
/// value: `put` never overwrites.
pub proof fn lemma_refresh_keeps_value<V>(m: FbrModel<V>, k: u64)
    requires
        model_wf(m),
        contains_key(m, k),
    ensures
        contains_key(touch_model(m, k), k),
        lookup(touch_model(m, k), k) == lookup(m, k),
{
    let t = touch_model(m, k);
    let p = key_pos(m, k);
    assert(t.items[0].key == k && t.items[0].value == m.items[p].value);
    assert(contains_key(t, k));
    let q = key_pos(t, k);
    if q != 0 {
        let rest = m.items.remove(p);
        rest.remove_ensures(p);
        assert(rest[q - 1].key == k);
        if q - 1 < p {
            assert(m.items[q - 1].key == k && q - 1 != p);
        } else {
            assert(m.items[q].key == k && q != p);
        }
        assert(false);
    }
}

/// The aging pass halves counts but touches no key and no value: what a
/// key looks up is unchanged.
pub proof fn lemma_lookup_aged<V>(m: FbrModel<V>, m2: FbrModel<V>, k: u64)
    requires
        model_wf(m),
        m2.items == aged_items(m.items),
    ensures
        contains_key(m2, k) == contains_key(m, k),
        contains_key(m, k) ==> lookup(m2, k) == lookup(m, k),
{
    assert(m2.items.len() == m.items.len());
    assert(forall|p: int|
        0 <= p < m.items.len() ==> (#[trigger] m2.items[p]).key == m.items[p].key
            && m2.items[p].value == m.items[p].value);
    if contains_key(m, k) {
        let p = key_pos(m, k);
        assert(m2.items[p].key == k);
        assert(contains_key(m2, k));
        let q = key_pos(m2, k);
        let p2 = key_pos(m, k);
        if q != p2 {
            assert(m.items[q].key == k);
            if q < p2 {
                assert(m.items[q].key != m.items[p2].key);
            } else {
                assert(m.items[p2].key != m.items[q].key);
            }
            assert(false);
        }
    } else {
        if contains_key(m2, k) {
            let q = key_pos(m2, k);
            assert(m.items[q].key == k);
            assert(false);
        }
    }
}

} // verus!
