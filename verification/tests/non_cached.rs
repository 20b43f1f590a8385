//! Tests for the per-request (non-cached) coordinator, driven the way the
//! async driver would drive it: every batch handed out is counted, answered
//! by a test-local batch function, and applied before the next step.

use dataloader::non_cached::State;

fn identity_results(keys: &Vec<u64>) -> Vec<(u64, Result<u64, ()>)> {
    keys.iter().map(|k| (*k, Ok(*k))).collect()
}

#[test]
fn assert_kinds() {
    fn _assert_send<T: Send>() {}
    fn _assert_sync<T: Sync>() {}
    _assert_send::<State<u64, ()>>();
    _assert_sync::<State<u64, ()>>();
    _assert_send::<State<String, String>>();
    _assert_sync::<State<String, String>>();
    _assert_send::<dataloader::non_cached::Batch>();
    _assert_send::<dataloader::cached::State<dataloader::cached::HashCache<u64>>>();
    _assert_sync::<dataloader::cached::State<dataloader::cached::HashCache<u64>>>();
}

#[test]
fn test_load() {
    // Three interleaved callers: keys 1, 2, 3; 12, 13, 14; 10, 11.
    let mut state: State<u64, ()> = State::new();
    let max = 4;
    let mut max_batch_loaded = 0;
    let mut ids: Vec<(usize, u64)> = Vec::new();

    for key in [1u64, 12, 10, 2, 13, 11, 3, 14] {
        assert!(state.next_id_is_free());
        let (id, dispatch) = state.register(key, max);
        ids.push((id, key));
        if let Some(batch) = dispatch {
            let keys = batch.keys().clone();
            if keys.len() > max_batch_loaded {
                max_batch_loaded = keys.len();
            }
            let results = identity_results(&keys);
            state.apply_batch(batch, results).expect("no key omitted");
        }
    }
    // The first caller to wake drains what is left.
    if let Some(batch) = state.drain_pending() {
        let keys = batch.keys().clone();
        if keys.len() > max_batch_loaded {
            max_batch_loaded = keys.len();
        }
        let results = identity_results(&keys);
        state.apply_batch(batch, results).expect("no key omitted");
    }

    for (id, key) in ids {
        assert_eq!(state.take_completed(id), Some(Ok(key)));
    }
    assert!(max_batch_loaded > 1);
    assert!(
        max_batch_loaded <= max,
        "max_batch_loaded({}) <= max_batch_size({})",
        max_batch_loaded,
        max
    );
}

#[test]
fn test_load_safe_unresolved_key() {
    // A batch answer that omits a queued key is a contract violation: the
    // request fails instead of being credited.
    let mut state: State<u64, ()> = State::new();
    let (id, dispatch) = state.register(1337, 4);
    assert!(dispatch.is_none());
    let batch = state.drain_pending().expect("one request is queued");
    let fv = state.apply_batch(batch, Vec::new());
    assert!(fv.is_err());
    assert_eq!(fv, Err(1337));
    assert_eq!(state.take_completed(id), None);
}

#[test]
fn test_try_load_unresolved_key_multiple_requests() {
    let mut state: State<u64, ()> = State::new();
    let (id1, d1) = state.register(1337, 4);
    let (id2, d2) = state.register(1338, 4);
    assert!(d1.is_none() && d2.is_none());
    let batch = state.drain_pending().expect("two requests are queued");
    let f = state.apply_batch(batch, Vec::new());
    assert!(f.is_err());
    assert_eq!(state.take_completed(id1), None);
    assert_eq!(state.take_completed(id2), None);
}

#[test]
fn test_try_load_unresolved_key_multiple_requests_beyond_max_batch_size() {
    let mut state: State<u64, ()> = State::new();
    let max = 2;
    let mut batch_calls = 0;

    let (id1, d1) = state.register(1337, max);
    assert!(d1.is_none());
    let (id2, d2) = state.register(1338, max);
    let batch = d2.expect("queuing the second key reaches the bound");
    assert_eq!(batch.keys().clone(), vec![1337, 1338]);
    batch_calls += 1;
    let f1 = state.apply_batch(batch, Vec::new());
    assert_eq!(f1, Err(1337));

    let (id3, d3) = state.register(1339, max);
    assert!(d3.is_none());
    let batch = state.drain_pending().expect("the third request is queued");
    assert_eq!(batch.keys().clone(), vec![1339]);
    batch_calls += 1;
    let f2 = state.apply_batch(batch, Vec::new());
    assert_eq!(f2, Err(1339));

    assert_eq!(state.take_completed(id1), None);
    assert_eq!(state.take_completed(id2), None);
    assert_eq!(state.take_completed(id3), None);
    assert!(batch_calls <= 2);
}

#[test]
fn scenario_same_key_request_identity() {
    // Two concurrent loads of one key: each is its own request, the batch
    // function sees the key once, and both callers get their own clone.
    let mut state: State<u64, ()> = State::new();
    let (id1, d1) = state.register(42, 4);
    let (id2, d2) = state.register(42, 4);
    assert_ne!(id1, id2);
    assert!(d1.is_none() && d2.is_none());

    let mut batch_calls = 0;
    let batch = state.drain_pending().expect("both requests are queued");
    assert_eq!(batch.keys().clone(), vec![42]);
    batch_calls += 1;
    state.apply_batch(batch, vec![(42, Ok(7))]).expect("the key is answered");
    assert!(state.drain_pending().is_none());

    assert_eq!(state.take_completed(id1), Some(Ok(7)));
    assert_eq!(state.take_completed(id2), Some(Ok(7)));
    // A result is evicted as soon as it is delivered.
    assert_eq!(state.take_completed(id1), None);
    assert_eq!(batch_calls, 1);
}

#[test]
fn backend_errors_are_per_key() {
    // One key's failure is surfaced to its caller only.
    let mut state: State<u64, String> = State::new();
    let (id1, _) = state.register(1, 10);
    let (id2, _) = state.register(2, 10);
    let batch = state.drain_pending().expect("two requests are queued");
    let results: Vec<(u64, Result<u64, String>)> =
        vec![(1, Ok(100)), (2, Err("boom".to_string()))];
    state.apply_batch(batch, results).expect("every key is answered");
    assert_eq!(state.take_completed(id1), Some(Ok(100)));
    assert_eq!(state.take_completed(id2), Some(Err("boom".to_string())));
}

#[test]
fn load_many_sequential_fanout() {
    // The non-cached load_many is a sequential fan-out over load: each key
    // is its own request and, with no siblings, its own batch.
    let mut state: State<u64, ()> = State::new();
    let keys: Vec<u64> = vec![10, 11, 12];
    let mut out: Vec<(u64, Result<u64, ()>)> = Vec::new();
    for key in &keys {
        let (id, dispatch) = state.register(*key, 4);
        assert!(dispatch.is_none());
        let batch = state.drain_pending().expect("the request is queued");
        assert_eq!(batch.keys().len(), 1);
        let results = identity_results(batch.keys());
        state.apply_batch(batch, results).expect("no key omitted");
        out.push((*key, state.take_completed(id).expect("credited")));
    }
    assert_eq!(out, vec![(10, Ok(10)), (11, Ok(11)), (12, Ok(12))]);
}
