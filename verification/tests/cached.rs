//! Scenario tests for the cached (memoizing) coordinator.
//!
//! Each test drives the verified state machine the way the async driver
//! would: every batch a state operation hands out is counted and answered by
//! a test-local batch function, and its results are applied before the next
//! step.

use dataloader::cached::{Cache, EnqueueOutcome, HashCache, LoadError, ManyProgress, State};

fn identity_results(keys: &Vec<u64>) -> Vec<(u64, u64)> {
    keys.iter().map(|k| (*k, *k)).collect()
}

#[test]
fn scenario_basic_batching() {
    // Three sibling callers, max_batch_size = 4, identity batch function.
    let mut state: State<HashCache<u64>> = State::with_cache(HashCache::new());
    let max = 4;
    let mut batch_calls: Vec<Vec<u64>> = Vec::new();

    // Each caller enqueues its key within the coordination window.
    for key in [1u64, 2, 3] {
        match state.enqueue(key, max) {
            EnqueueOutcome::Wait => {}
            _ => panic!("expected every caller to wait"),
        }
    }

    // The first caller to wake drains the queue and dispatches it.
    let batch = state.take_pending();
    assert!(!batch.is_empty());
    let results = identity_results(&batch);
    batch_calls.push(batch);
    state.apply_batch_results(results);

    // Its siblings find the queue empty and everyone resolves its own key.
    assert!(state.take_pending().is_empty());
    for key in [1u64, 2, 3] {
        assert_eq!(state.resolve(key), Ok(key));
    }

    // Exactly one batch call, and it saw {1, 2, 3}.
    assert_eq!(batch_calls.len(), 1);
    let mut seen = batch_calls[0].clone();
    seen.sort();
    assert_eq!(seen, vec![1, 2, 3]);
}

#[test]
fn scenario_size_bound_dispatch() {
    // One multi-key load of eight keys with max_batch_size = 4.
    let mut state: State<HashCache<u64>> = State::with_cache(HashCache::new());
    let max = 4;
    let keys: Vec<u64> = vec![1, 2, 3, 4, 5, 6, 7, 8];
    let mut batch_calls: Vec<Vec<u64>> = Vec::new();

    let mut prog: ManyProgress<u64> = ManyProgress::begin();
    while let Some(batch) = state.try_load_many_step(&keys, &mut prog, max) {
        let results = identity_results(&batch);
        batch_calls.push(batch);
        state.apply_batch_results(results);
    }
    if !prog.rest_is_empty() {
        let batch = state.take_pending();
        if !batch.is_empty() {
            let results = identity_results(&batch);
            batch_calls.push(batch);
            state.apply_batch_results(results);
        }
    }
    let pairs = state.finish_many(prog).expect("all keys resolved");

    let mut sorted = pairs.clone();
    sorted.sort();
    assert_eq!(sorted, vec![(1, 1), (2, 2), (3, 3), (4, 4), (5, 5), (6, 6), (7, 7), (8, 8)]);
    assert!(batch_calls.iter().all(|b| b.len() <= 4));
    assert!(batch_calls.iter().any(|b| b.len() >= 2));
}

#[test]
fn scenario_memoization() {
    // A primed key is served with zero batch calls.
    let mut state: State<HashCache<String>> = State::with_cache(HashCache::new());
    state.prime(10, "ten".to_string());

    match state.enqueue(10, 200) {
        EnqueueOutcome::Hit(v) => assert_eq!(v, "ten"),
        _ => panic!("expected the primed value to be served at once"),
    }
    assert_eq!(state.resolve(10), Ok("ten".to_string()));
    // Nothing was ever queued, so nothing can be dispatched.
    assert!(state.take_pending().is_empty());
}

#[test]
fn scenario_unresolved() {
    // The batch function returns an empty map: try_load reports NotFound.
    let mut state: State<HashCache<u64>> = State::with_cache(HashCache::new());
    match state.enqueue(1337, 200) {
        EnqueueOutcome::Wait => {}
        _ => panic!("expected the key to be queued"),
    }
    let batch = state.take_pending();
    assert_eq!(batch, vec![1337]);
    state.apply_batch_results(Vec::new());
    assert_eq!(state.resolve(1337), Err(LoadError::NotFound(1337)));
}

#[test]
fn scenario_unresolved_beyond_batch_size() {
    // Three concurrent try_loads, max_batch_size = 2, empty-returning batch
    // function: all three fail with NotFound in at most two batch calls.
    let mut state: State<HashCache<u64>> = State::with_cache(HashCache::new());
    let max = 2;
    let mut batch_calls: Vec<Vec<u64>> = Vec::new();

    match state.enqueue(1337, max) {
        EnqueueOutcome::Wait => {}
        _ => panic!("first caller should wait"),
    }
    match state.enqueue(1338, max) {
        EnqueueOutcome::Dispatch(batch) => {
            // Queuing the second key reached the bound: immediate dispatch.
            assert_eq!(batch, vec![1337, 1338]);
            state.apply_batch_results(Vec::new());
            batch_calls.push(batch);
        }
        _ => panic!("second caller should dispatch at the bound"),
    }
    match state.enqueue(1339, max) {
        EnqueueOutcome::Wait => {}
        _ => panic!("third caller should wait"),
    }
    let batch = state.take_pending();
    assert_eq!(batch, vec![1339]);
    state.apply_batch_results(Vec::new());
    batch_calls.push(batch);

    assert_eq!(state.resolve(1337), Err(LoadError::NotFound(1337)));
    assert_eq!(state.resolve(1338), Err(LoadError::NotFound(1338)));
    assert_eq!(state.resolve(1339), Err(LoadError::NotFound(1339)));
    assert!(batch_calls.len() <= 2);
}

#[test]
fn memoized_key_never_redispatched_until_cleared() {
    // After a successful load, repeat loads never queue the key again; only
    // clearing it makes a new batch call possible.
    let mut state: State<HashCache<u64>> = State::with_cache(HashCache::new());
    match state.enqueue(5, 4) {
        EnqueueOutcome::Wait => {}
        _ => panic!("expected the key to be queued"),
    }
    let batch = state.take_pending();
    state.apply_batch_results(identity_results(&batch));
    assert_eq!(state.resolve(5), Ok(5));

    for _ in 0..3 {
        match state.enqueue(5, 4) {
            EnqueueOutcome::Hit(v) => assert_eq!(v, 5),
            _ => panic!("a memoized key must be served without any batch call"),
        }
        assert!(state.take_pending().is_empty());
    }

    state.clear(5);
    match state.enqueue(5, 4) {
        EnqueueOutcome::Wait => {}
        _ => panic!("a cleared key must be queued again"),
    }
}

#[test]
fn duplicate_key_queued_once() {
    // Two callers racing on one key: the second only waits, and the key
    // appears once in the dispatched batch.
    let mut state: State<HashCache<u64>> = State::with_cache(HashCache::new());
    match state.enqueue(9, 4) {
        EnqueueOutcome::Wait => {}
        _ => panic!("first caller should wait"),
    }
    match state.enqueue(9, 4) {
        EnqueueOutcome::Wait => {}
        _ => panic!("second caller should wait, not re-queue"),
    }
    let batch = state.take_pending();
    assert_eq!(batch, vec![9]);
    state.apply_batch_results(identity_results(&batch));
    assert_eq!(state.resolve(9), Ok(9));
    assert_eq!(state.resolve(9), Ok(9));
}

#[test]
fn clear_all_empties_the_cache() {
    let mut state: State<HashCache<u64>> = State::with_cache(HashCache::new());
    state.prime_many(vec![(1, 10), (2, 20), (3, 30)]);
    assert_eq!(state.get_completed(2), Some(20));
    state.clear_all();
    assert_eq!(state.get_completed(1), None);
    assert_eq!(state.get_completed(2), None);
    assert_eq!(state.resolve(3), Err(LoadError::NotFound(3)));
}

#[test]
fn prime_overwrites_and_get_clones() {
    let mut state: State<HashCache<String>> = State::with_cache(HashCache::new());
    state.prime(1, "one".to_string());
    state.prime(1, "uno".to_string());
    assert_eq!(state.get_completed(1), Some("uno".to_string()));
    // The stored value survives being served.
    assert_eq!(state.get_completed(1), Some("uno".to_string()));
}

#[test]
fn with_cache_serves_prewarmed_entries() {
    let mut cache: HashCache<u64> = HashCache::new();
    cache.insert(7, 70);
    let mut state: State<HashCache<u64>> = State::with_cache(cache);
    match state.enqueue(7, 200) {
        EnqueueOutcome::Hit(v) => assert_eq!(v, 70),
        _ => panic!("a pre-warmed key must be served at once"),
    }
}

#[test]
fn hash_cache_is_an_exact_map() {
    let mut cache: HashCache<String> = HashCache::new();
    assert_eq!(cache.get(1), None);
    cache.insert(1, "a".to_string());
    cache.insert(2, "b".to_string());
    cache.insert(1, "c".to_string());
    assert_eq!(cache.get(1), Some("c".to_string()));
    assert_eq!(cache.remove(2), Some("b".to_string()));
    assert_eq!(cache.remove(2), None);
    cache.clear();
    assert_eq!(cache.get(1), None);
}

#[test]
fn test_load_many() {
    // One multi-key load of [2..=8] with max_batch_size = 4: every batch
    // stays within the bound and at least one batches more than one key.
    let mut state: State<HashCache<u64>> = State::with_cache(HashCache::new());
    let max = 4;
    let keys: Vec<u64> = vec![2, 3, 4, 5, 6, 7, 8];
    let mut max_batch_loaded = 0;

    let mut prog: ManyProgress<u64> = ManyProgress::begin();
    while let Some(batch) = state.try_load_many_step(&keys, &mut prog, max) {
        if batch.len() > max_batch_loaded {
            max_batch_loaded = batch.len();
        }
        let results = identity_results(&batch);
        state.apply_batch_results(results);
    }
    if !prog.rest_is_empty() {
        let batch = state.take_pending();
        if !batch.is_empty() {
            if batch.len() > max_batch_loaded {
                max_batch_loaded = batch.len();
            }
            let results = identity_results(&batch);
            state.apply_batch_results(results);
        }
    }
    let mut pairs = state.finish_many(prog).expect("all keys resolved");
    pairs.sort();
    assert_eq!(pairs, vec![(2, 2), (3, 3), (4, 4), (5, 5), (6, 6), (7, 7), (8, 8)]);
    assert!(max_batch_loaded > 1);
    assert!(
        max_batch_loaded <= max,
        "max_batch_loaded({}) <= max_batch_size({})",
        max_batch_loaded,
        max
    );
}

#[derive(Clone, Debug, PartialEq)]
struct MyModel;

#[test]
fn test_generic() {
    // The coordinator is generic in its value type: load three keys of an
    // optional model type through one multi-key load.
    let mut state: State<HashCache<Option<MyModel>>> = State::with_cache(HashCache::new());
    let keys: Vec<u64> = vec![1, 3, 2];
    let mut prog: ManyProgress<Option<MyModel>> = ManyProgress::begin();
    while let Some(batch) = state.try_load_many_step(&keys, &mut prog, 200) {
        let results: Vec<(u64, Option<MyModel>)> =
            batch.iter().map(|k| (*k, Some(MyModel))).collect();
        state.apply_batch_results(results);
    }
    if !prog.rest_is_empty() {
        let batch = state.take_pending();
        let results: Vec<(u64, Option<MyModel>)> =
            batch.iter().map(|k| (*k, Some(MyModel))).collect();
        state.apply_batch_results(results);
    }
    let pairs = state.finish_many(prog).expect("all keys resolved");
    assert_eq!(pairs.len(), 3);
    for (_, v) in pairs {
        assert_eq!(v, Some(MyModel));
    }
}

#[test]
fn try_load_many_fails_on_first_missing_key() {
    // First-miss policy: the whole multi-key load fails with the first
    // requested key the batch function omitted.
    let mut state: State<HashCache<u64>> = State::with_cache(HashCache::new());
    let keys: Vec<u64> = vec![1, 2, 3];
    let mut prog: ManyProgress<u64> = ManyProgress::begin();
    while let Some(batch) = state.try_load_many_step(&keys, &mut prog, 200) {
        state.apply_batch_results(identity_results(&batch));
    }
    if !prog.rest_is_empty() {
        let batch = state.take_pending();
        // Answer only key 1: keys 2 and 3 stay unresolved.
        let results: Vec<(u64, u64)> = batch.iter().filter(|k| **k == 1).map(|k| (*k, *k)).collect();
        state.apply_batch_results(results);
    }
    assert_eq!(state.finish_many(prog), Err(LoadError::NotFound(2)));
}

#[test]
fn try_load_many_serves_memoized_keys_without_queuing() {
    let mut state: State<HashCache<u64>> = State::with_cache(HashCache::new());
    state.prime(2, 20);
    let keys: Vec<u64> = vec![2, 9];
    let mut prog: ManyProgress<u64> = ManyProgress::begin();
    while let Some(batch) = state.try_load_many_step(&keys, &mut prog, 200) {
        state.apply_batch_results(identity_results(&batch));
    }
    assert!(!prog.rest_is_empty());
    let batch = state.take_pending();
    assert_eq!(batch, vec![9]);
    state.apply_batch_results(identity_results(&batch));
    let pairs = state.finish_many(prog).expect("all keys resolved");
    assert_eq!(pairs, vec![(2, 20), (9, 9)]);
}
