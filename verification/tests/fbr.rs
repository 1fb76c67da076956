use fbr_cache::FbrCache;
use fbr_cache::Region;
use std::sync::atomic::{AtomicUsize, Ordering};

fn s(s: &str) -> String {
    s.to_owned()
}

#[test]
fn smoke() {
    let mut cache = FbrCache::<String, 3>::with_age_threshold(10, 4);

    assert_eq!(cache.get(&1), None);
    assert_eq!(cache.len(), 0);
    assert!(cache.is_empty());
    assert_eq!(cache.iter(), Vec::<(u64, &String, usize, Region)>::new());

    for i in 0..10 {
        cache.put(i, i.to_string());
    }
    assert_eq!(cache.get(&1), Some(&"1".to_owned()));
    assert_eq!(cache.len(), 10);
    assert!(!cache.is_empty());
    assert_eq!(
        cache.iter(),
        vec![
            (1, &s("1"), 1, Region::New),
            (9, &s("9"), 0, Region::New),
            (8, &s("8"), 0, Region::New),
            (7, &s("7"), 0, Region::Middle),
            (6, &s("6"), 0, Region::Middle),
            (5, &s("5"), 0, Region::Middle),
            (4, &s("4"), 0, Region::Middle),
            (3, &s("3"), 0, Region::Old),
            (2, &s("2"), 0, Region::Old),
            (0, &s("0"), 0, Region::Old)
        ]
    );

    cache.put(10, "10".to_string());
    assert_eq!(
        cache.iter(),
        vec![
            (10, &s("10"), 0, Region::New),
            (1, &s("1"), 1, Region::New),
            (9, &s("9"), 0, Region::New),
            (8, &s("8"), 0, Region::Middle),
            (7, &s("7"), 0, Region::Middle),
            (6, &s("6"), 0, Region::Middle),
            (5, &s("5"), 0, Region::Middle),
            (4, &s("4"), 0, Region::Old),
            (3, &s("3"), 0, Region::Old),
            (2, &s("2"), 0, Region::Old),
        ]
    );
}

#[test]
fn evict_1() {
    let mut cache = FbrCache::<String, 3>::with_age_threshold(5, 4);
    cache.put(0, "0".to_owned());
    println!("{:?}", cache.iter());
    cache.put(1, "1".to_owned());
    println!("{:?}", cache.iter());
    cache.get(&0);
    println!("{:?}", cache.iter());
    for i in 0..5 {
        cache.put(i, i.to_string());
        println!("{:?}", cache.iter());
    }
    assert_eq!(
        cache.iter(),
        vec![
            (4, &s("4"), 0, Region::New),
            (3, &s("3"), 0, Region::Middle),
            (2, &s("2"), 0, Region::Middle),
            (1, &s("1"), 1, Region::Old),
            (0, &s("0"), 1, Region::Old)
        ]
    );
    cache.get(&1);
    assert_eq!(
        cache.iter(),
        vec![
            (1, &s("1"), 2, Region::New),
            (4, &s("4"), 0, Region::Middle),
            (3, &s("3"), 0, Region::Middle),
            (2, &s("2"), 0, Region::Old),
            (0, &s("0"), 1, Region::Old)
        ]
    );
    cache.put(5, "5".to_string());
    assert_eq!(
        cache.iter(),
        vec![
            (5, &s("5"), 0, Region::New),
            (1, &s("1"), 2, Region::Middle),
            (4, &s("4"), 0, Region::Middle),
            (3, &s("3"), 0, Region::Old),
            (0, &s("0"), 1, Region::Old),
        ]
    );
}

#[test]
fn evict_3() {
    let mut cache = FbrCache::<String, 3>::with_age_threshold(5, 4);
    for _ in 0..4 {
        for i in 0..5 {
            cache.put(i, i.to_string());
        }
    }
    cache.put(5, "5".to_string());
    assert_eq!(
        cache.iter(),
        vec![
            (5, &s("5"), 0, Region::New),
            (4, &s("4"), 3, Region::Middle),
            (3, &s("3"), 3, Region::Middle),
            (2, &s("2"), 3, Region::Old),
            (1, &s("1"), 3, Region::Old)
        ]
    );
}

#[test]
fn aging() {
    let mut cache = FbrCache::<String, 3>::with_age_threshold(5, 4);
    for n in 0usize..5 {
        for i in 1..6u64 {
            cache.put(i, i.to_string());
            assert_eq!(
                cache.total_count(),
                (n * 5 + i as usize).saturating_sub(5),
                "n={} i={}",
                n,
                i
            );
        }
    }
    assert_eq!(
        cache.iter(),
        vec![
            (5, &s("5"), 4, Region::New),
            (4, &s("4"), 4, Region::Middle),
            (3, &s("3"), 4, Region::Middle),
            (2, &s("2"), 4, Region::Old),
            (1, &s("1"), 4, Region::Old)
        ]
    );
    assert_eq!(cache.total_count(), 20);

    cache.get(&1);
    assert_eq!(
        cache.iter(),
        vec![
            (1, &s("1"), 2, Region::New),
            (5, &s("5"), 2, Region::Middle),
            (4, &s("4"), 2, Region::Middle),
            (3, &s("3"), 2, Region::Old),
            (2, &s("2"), 2, Region::Old),
        ]
    );
    assert_eq!(cache.total_count(), 10);

    for _ in 0..4 {
        for i in 1..4 {
            cache.put(i, i.to_string());
        }
    }
    assert_eq!(
        cache.iter(),
        vec![
            (3, &s("3"), 3, Region::New),
            (2, &s("2"), 3, Region::Middle),
            (1, &s("1"), 2, Region::Middle),
            (5, &s("5"), 1, Region::Old),
            (4, &s("4"), 1, Region::Old),
        ]
    );
}

struct X<'a>(&'a AtomicUsize);

impl<'a> Drop for X<'a> {
    fn drop(&mut self) {
        self.0.fetch_add(1, Ordering::Relaxed);
    }
}

#[test]
fn clear() {
    let counter = AtomicUsize::new(0);
    let mut cache = FbrCache::<X, 3>::with_age_threshold(5, 4);
    for i in 0..6 {
        cache.put(i, X(&counter));
    }
    assert_eq!(counter.load(Ordering::Relaxed), 1);
    cache.clear();
    assert_eq!(counter.load(Ordering::Relaxed), 6);
    for i in 0..6 {
        cache.put(i, X(&counter));
    }
    assert_eq!(counter.load(Ordering::Relaxed), 7);
    drop(cache);
    assert_eq!(counter.load(Ordering::Relaxed), 12);
}

#[test]
fn prio() {
    let mut cache = FbrCache::<String, 3>::with_age_threshold(5, 4);
    cache.put_prio(0, 0.to_string());
    for i in 1..6 {
        cache.put(i, i.to_string());
    }
    assert_eq!(
        cache.iter(),
        vec![
            (5, &s("5"), 0, Region::New),
            (4, &s("4"), 0, Region::Middle),
            (3, &s("3"), 0, Region::Middle),
            (2, &s("2"), 0, Region::Old),
            (0, &s("0"), 1, Region::Old),
        ]
    );
}

#[test]
fn evict_cold() {
    // With nothing accessed, eviction takes the least recent zero-count
    // entry out of the Old region.
    let mut cache = FbrCache::<String, 3>::with_age_threshold(5, 4);
    for i in 0..6 {
        cache.put(i, i.to_string());
    }
    assert_eq!(
        cache.iter(),
        vec![
            (5, &s("5"), 0, Region::New),
            (4, &s("4"), 0, Region::Middle),
            (3, &s("3"), 0, Region::Middle),
            (2, &s("2"), 0, Region::Old),
            (1, &s("1"), 0, Region::Old),
        ]
    );
}

#[test]
fn round_trip() {
    let mut cache = FbrCache::<String, 4>::new(8);
    assert_eq!(cache.get(&7), None);
    cache.put(7, s("seven"));
    assert_eq!(cache.get(&7), Some(&s("seven")));
}

#[test]
fn no_overwrite() {
    let mut cache = FbrCache::<String, 4>::new(8);
    cache.put(7, s("first"));
    cache.put(7, s("second"));
    assert_eq!(cache.get(&7), Some(&s("first")));
}

#[test]
fn two_clears() {
    let mut cache = FbrCache::<String, 4>::new(8);
    cache.put(1, s("a"));
    cache.put(2, s("b"));
    cache.clear();
    let once = cache.iter();
    assert!(once.is_empty());
    assert_eq!(cache.len(), 0);
    assert_eq!(cache.total_count(), 0);
    cache.clear();
    assert!(cache.iter().is_empty());
    assert_eq!(cache.len(), 0);
    assert_eq!(cache.total_count(), 0);
}

#[test]
fn smallest_capacity_regions() {
    // With capacity 4 the regions are one New slot, two Middle slots and
    // one Old slot once the cache is full.
    let mut cache = FbrCache::<String, 3>::with_age_threshold(4, 4);
    for i in 0..4 {
        cache.put(i, i.to_string());
    }
    let regions: Vec<Region> = cache.iter().into_iter().map(|t| t.3).collect();
    assert_eq!(
        regions,
        vec![Region::New, Region::Middle, Region::Middle, Region::Old]
    );
}

#[test]
fn prio_count_halves_on_aging() {
    // A priority insertion starts at count 1; the aging pass halves that
    // to 0 like any other count.
    let mut cache = FbrCache::<String, 8>::with_age_threshold(5, 4);
    for i in 1..6 {
        cache.put_prio(i, i.to_string());
    }
    for t in cache.iter() {
        assert_eq!(t.2, 1);
    }
    // 21 hits outside the New region push the total past the threshold of
    // 20 and trigger the aging pass.
    cache.get(&1);
    for _ in 0..10 {
        cache.get(&2);
        cache.get(&1);
    }
    assert_eq!(
        cache.iter(),
        vec![
            (1, &s("1"), 6, Region::New),
            (2, &s("2"), 5, Region::Middle),
            (5, &s("5"), 0, Region::Middle),
            (4, &s("4"), 0, Region::Old),
            (3, &s("3"), 0, Region::Old),
        ]
    );
    assert_eq!(cache.total_count(), 6);
}
