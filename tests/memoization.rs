use std::cell::Cell;

use memo::cache::{Cache, MAX_AGE};
use memo::memo::{evict, memoized, memoized_ref, Eviction};
use memo::track::{Ignored, KeyHasher, Observed, Track};

#[test]
fn repeat_call_hits_and_computes_once() {
    let calls = Cell::new(0u32);
    let f = |x: u64| {
        calls.set(calls.get() + 1);
        (x * 2 + u64::from(calls.get()), ())
    };
    let mut cache: Cache<u64, ()> = Cache::new();
    let first = memoized(&mut cache, 7u64, f);
    let second = memoized(&mut cache, 7u64, f);
    assert_eq!(first, 15);
    assert_eq!(second, 15);
    assert_eq!(calls.get(), 1);
    assert_eq!(cache.len(), 1);
}

#[test]
fn repeat_call_hits_after_max_age_sweeps() {
    let calls = Cell::new(0u32);
    let f = |x: u64| {
        calls.set(calls.get() + 1);
        (x + 100 * u64::from(calls.get()), ())
    };
    let mut cache: Cache<u64, ()> = Cache::new();
    assert_eq!(memoized(&mut cache, 3u64, f), 103);
    for _ in 0..MAX_AGE {
        evict(&mut cache);
    }
    assert_eq!(memoized(&mut cache, 3u64, f), 103);
    assert_eq!(calls.get(), 1);
}

#[test]
fn constraint_honored_for_irrelevant_field() {
    let calls = Cell::new(0u64);
    let f = |i: (Observed, Ignored<u64>)| {
        calls.set(calls.get() + 1);
        (i.0 .0 * 1000 + (i.1).0 + 10_000 * calls.get(), (i.0 .0, ()))
    };
    let mut cache: Cache<u64, (u64, ())> = Cache::new();
    let a = memoized(&mut cache, (Observed(4), Ignored(1)), f);
    let b = memoized(&mut cache, (Observed(4), Ignored(2)), f);
    assert_eq!(a, 14_001);
    assert_eq!(b, 14_001);
    assert_eq!(calls.get(), 1);
}

#[test]
fn constraint_violated_forces_recompute() {
    let calls = Cell::new(0u64);
    let f = |i: (Observed, Ignored<u64>)| {
        calls.set(calls.get() + 1);
        (i.0 .0 * 1000 + 10_000 * calls.get(), (i.0 .0, ()))
    };
    let mut cache: Cache<u64, (u64, ())> = Cache::new();
    let a = memoized(&mut cache, (Observed(4), Ignored(1)), f);
    let b = memoized(&mut cache, (Observed(5), Ignored(1)), f);
    assert_eq!(a, 14_000);
    assert_eq!(b, 25_000);
    assert_eq!(calls.get(), 2);
    // The recomputation overwrote the single slot for this digest.
    assert_eq!(cache.len(), 1);
    let c = memoized(&mut cache, (Observed(5), Ignored(9)), f);
    assert_eq!(c, 25_000);
    assert_eq!(calls.get(), 2);
}

#[test]
fn unused_entry_is_evicted_after_max_age_plus_one_sweeps() {
    let mut cache: Cache<u64, ()> = Cache::new();
    memoized(&mut cache, 1u64, |x: u64| (x, ()));
    for _ in 0..MAX_AGE {
        let report = evict(&mut cache);
        assert_eq!(report, Eviction { before: 1, after: 1 });
    }
    let report = evict(&mut cache);
    assert_eq!(report.before, 1);
    assert_eq!(report.after, 0);
    assert_eq!(cache.len(), 0);
}

#[test]
fn rehit_entry_survives_indefinitely() {
    let calls = Cell::new(0u32);
    let f = |x: u64| {
        calls.set(calls.get() + 1);
        (x, ())
    };
    let mut cache: Cache<u64, ()> = Cache::new();
    memoized(&mut cache, 1u64, f);
    memoized(&mut cache, 2u64, f);
    for _ in 0..(4 * MAX_AGE) {
        assert_eq!(memoized(&mut cache, 2u64, f), 2);
        evict(&mut cache);
    }
    assert_eq!(cache.len(), 1);
    assert_eq!(calls.get(), 2);
    assert_eq!(memoized(&mut cache, 2u64, f), 2);
    assert_eq!(calls.get(), 2);
}

#[test]
fn report_counts_stale_entries() {
    let mut cache: Cache<u64, ()> = Cache::new();
    memoized(&mut cache, 1u64, |x: u64| (x, ()));
    memoized(&mut cache, 2u64, |x: u64| (x, ()));
    for _ in 0..(MAX_AGE - 1) {
        evict(&mut cache);
    }
    // Entries 1 and 2 now have age MAX_AGE - 1; a third one is fresh.
    memoized(&mut cache, 3u64, |x: u64| (x, ()));
    let report = evict(&mut cache);
    assert_eq!(report.before - report.after, 0);
    let report = evict(&mut cache);
    assert_eq!(report, Eviction { before: 3, after: 1 });
    assert_eq!(report.evicted(), 2);
}

#[test]
fn empty_cache_eviction_reports_zero() {
    let mut cache: Cache<u64, ()> = Cache::new();
    let report = evict(&mut cache);
    assert_eq!(report, Eviction { before: 0, after: 0 });
    assert_eq!(report.evicted(), 0);
}

#[test]
fn by_reference_path_matches_copying_path() {
    let calls_a = Cell::new(0u32);
    let calls_b = Cell::new(0u32);
    let fa = |x: u64| {
        calls_a.set(calls_a.get() + 1);
        (vec![x, x + 1], ())
    };
    let fb = |x: u64| {
        calls_b.set(calls_b.get() + 1);
        (vec![x, x + 1], ())
    };
    let mut a: Cache<Vec<u64>, ()> = Cache::new();
    let mut b: Cache<Vec<u64>, ()> = Cache::new();
    for _ in 0..3 {
        let x = memoized(&mut a, 5u64, fa);
        let y = memoized_ref(&mut b, 5u64, fb, |o: &Vec<u64>| o.clone());
        assert_eq!(x, vec![5, 6]);
        assert_eq!(x, y);
    }
    assert_eq!(calls_a.get(), 1);
    assert_eq!(calls_b.get(), 1);
}

#[test]
fn projection_runs_once_per_call() {
    let seen = Cell::new(0u32);
    let mut cache: Cache<Vec<u64>, ()> = Cache::new();
    let g = |o: &Vec<u64>| {
        seen.set(seen.get() + 1);
        o.len()
    };
    assert_eq!(memoized_ref(&mut cache, 3u64, |x: u64| (vec![0; x as usize], ()), g), 3);
    assert_eq!(memoized_ref(&mut cache, 3u64, |x: u64| (vec![0; x as usize], ()), g), 3);
    assert_eq!(seen.get(), 2);
}

fn pair_case(second_a: u64, second_b: u64) -> (u64, u32) {
    let calls = Cell::new(0u32);
    let f = |i: (Observed, Observed)| {
        calls.set(calls.get() + 1);
        (i.0 .0 * 10 + i.1 .0, (i.0 .0, i.1 .0))
    };
    let mut cache: Cache<u64, (u64, u64)> = Cache::new();
    memoized(&mut cache, (Observed(1), Observed(2)), f);
    let out = memoized(&mut cache, (Observed(second_a), Observed(second_b)), f);
    (out, calls.get())
}

#[test]
fn pair_hits_when_both_fields_match() {
    assert_eq!(pair_case(1, 2), (12, 1));
}

#[test]
fn pair_misses_when_first_field_differs() {
    assert_eq!(pair_case(3, 2), (32, 2));
}

#[test]
fn pair_misses_when_second_field_differs() {
    assert_eq!(pair_case(1, 4), (14, 2));
}

#[test]
fn pair_misses_when_both_fields_differ() {
    assert_eq!(pair_case(3, 4), (34, 2));
}

#[test]
fn pair_matches_is_conjunction() {
    let p = (Observed(1), Observed(2));
    assert!(p.matches(&(1, 2)));
    assert!(!p.matches(&(0, 2)));
    assert!(!p.matches(&(1, 0)));
    assert!(!p.matches(&(0, 0)));
}

#[test]
fn empty_input_is_computed_once() {
    let calls = Cell::new(0u32);
    let f = |_: ()| {
        calls.set(calls.get() + 1);
        (42u64, ())
    };
    let mut cache: Cache<u64, ()> = Cache::new();
    assert_eq!(memoized(&mut cache, (), f), 42);
    assert_eq!(memoized(&mut cache, (), f), 42);
    assert_eq!(calls.get(), 1);
}

#[test]
fn exact_keys_separate_entries() {
    let calls = Cell::new(0u32);
    let f = |i: (u64, bool)| {
        calls.set(calls.get() + 1);
        (if i.1 { i.0 } else { 0 }, ((), ()))
    };
    let mut cache: Cache<u64, ((), ())> = Cache::new();
    assert_eq!(memoized(&mut cache, (9u64, true), f), 9);
    assert_eq!(memoized(&mut cache, (9u64, false), f), 0);
    assert_eq!(memoized(&mut cache, (8u64, true), f), 8);
    assert_eq!(memoized(&mut cache, (9u64, true), f), 9);
    assert_eq!(calls.get(), 3);
    assert_eq!(cache.len(), 3);
}

#[test]
fn key_words_follow_field_order() {
    let mut h = KeyHasher::new();
    (1u64, Ignored("x"), 2u32).key(&mut h);
    let mut g = KeyHasher::new();
    g.write_u64(1);
    g.write_u64(2);
    assert_eq!(h.finish(), g.finish());
    let mut r = KeyHasher::new();
    (2u32, 1u64).key(&mut r);
    assert_ne!(h.finish(), r.finish());
}

#[test]
fn hasher_digest_is_fxhash_of_words() {
    let mut h = KeyHasher::new();
    h.write_u64(1);
    h.write_u64(2);
    let words: [u64; 2] = [1, 2];
    assert_eq!(h.finish(), fxhash::hash64(&words[..]));
    assert_ne!(h.finish(), 0);
    assert_ne!(KeyHasher::new().finish(), h.finish());
}

#[test]
fn reference_input_keys_like_its_target() {
    let calls = Cell::new(0u32);
    let f = |x: &u64| {
        calls.set(calls.get() + 1);
        (*x + 1, ())
    };
    let mut cache: Cache<u64, ()> = Cache::new();
    let v = 10u64;
    assert_eq!(memoized(&mut cache, &v, f), 11);
    assert_eq!(memoized(&mut cache, &v, f), 11);
    assert_eq!(calls.get(), 1);
}
