//! The memoizing (cached) batching coordinator.
//!
//! The shared state of a cached loader is a [`State`]: the memoized results
//! (behind the pluggable [`Cache`] trait) together with the set of keys that
//! are queued for the next batch dispatch.  All decisions that the loader
//! takes while holding its state lock are methods of [`State`]; the driver
//! around it only relays batch calls and waits.

use vstd::prelude::*;
use std::collections::HashMap;

verus! {

broadcast use vstd::std_specs::hash::group_hash_axioms;

/// A store of completed results, pluggable by the user.
///
/// The coordinator memoizes into a `Cache` and serves repeat lookups from it.
/// The default implementation is [`HashCache`], an unbounded hash map.  An
/// implementation must behave as an exact map — the coordinator's guarantees
/// (memoization, at most one batch call per key until cleared) rest on
/// entries never vanishing on their own.
pub trait Cache: Sized {
    type Val: Clone;

    /// The mathematical contents of the cache.
    spec fn contents(&self) -> Map<u64, Self::Val>;

    /// Looks a key up; a hit returns a clone of the stored value and leaves
    /// the contents unchanged.
    fn get(&mut self, key: u64) -> (r: Option<Self::Val>)
        ensures
            final(self).contents() == old(self).contents(),
            match r {
                Some(v) => old(self).contents().contains_key(key) && cloned::<Self::Val>(
                    old(self).contents()[key],
                    v,
                ),
                None => !old(self).contents().contains_key(key),
            },
    ;

    /// Stores a value under a key, replacing any previous entry.
    fn insert(&mut self, key: u64, val: Self::Val)
        ensures
            final(self).contents() == old(self).contents().insert(key, val),
    ;

    /// Removes a key, handing back the stored value if there was one.
    fn remove(&mut self, key: u64) -> (r: Option<Self::Val>)
        ensures
            final(self).contents() == old(self).contents().remove(key),
            match r {
                Some(v) => old(self).contents().contains_key(key) && v == old(
                    self,
                ).contents()[key],
                None => !old(self).contents().contains_key(key),
            },
    ;

    /// Removes every entry.
    fn clear(&mut self)
        ensures
            final(self).contents() == Map::<u64, Self::Val>::empty(),
    ;
}

/// The default cache: an unbounded hash map.
pub struct HashCache<V> {
    map: HashMap<u64, V>,
}

impl<V: Clone> HashCache<V> {
    /// An empty cache.
    pub fn new() -> (c: Self)
        ensures
            c.contents() == Map::<u64, V>::empty(),
    {
        HashCache { map: HashMap::new() }
    }
}

impl<V: Clone> Cache for HashCache<V> {
    type Val = V;

    closed spec fn contents(&self) -> Map<u64, V> {
        self.map@
    }

    fn get(&mut self, key: u64) -> (r: Option<V>) {
        match self.map.get(&key) {
            Some(v) => Some(v.clone()),
            None => None,
        }
    }

    fn insert(&mut self, key: u64, val: V) {
        self.map.insert(key, val);
    }

    fn remove(&mut self, key: u64) -> (r: Option<V>) {
        self.map.remove(&key)
    }

    fn clear(&mut self) {
        self.map.clear()
    }
}

/// What one enqueue step decided, under a single hold of the state lock.
pub enum EnqueueOutcome<V> {
    /// The key was already completed; a clone of its value is served at once.
    Hit(V),
    /// Inserting the key filled the pending queue up to the batch bound:
    /// these keys were drained and must be dispatched now.
    Dispatch(Vec<u64>),
    /// The key is pending (newly queued, or already queued by a sibling);
    /// the caller should wait for the coordination window and poll again.
    Wait,
}

/// Whether enqueuing `key` triggers an immediate dispatch: the key is not
/// served or queued yet, and queuing it reaches the batch bound.
pub open spec fn would_dispatch<V>(
    completed: Map<u64, V>,
    pending: Seq<u64>,
    key: u64,
    max_batch_size: usize,
) -> bool {
    &&& !completed.contains_key(key)
    &&& !pending.contains(key)
    &&& pending.len() + 1 >= max_batch_size
}

/// The pending queue after one enqueue step.
pub open spec fn pending_after_enqueue<V>(
    completed: Map<u64, V>,
    pending: Seq<u64>,
    key: u64,
    max_batch_size: usize,
) -> Seq<u64> {
    if completed.contains_key(key) || pending.contains(key) {
        pending
    } else if pending.len() + 1 >= max_batch_size {
        Seq::empty()
    } else {
        pending.push(key)
    }
}

/// The memoized results after a batch's answers are inserted, first to last
/// (a later pair for the same key wins).
pub open spec fn apply_results<V>(completed: Map<u64, V>, results: Seq<(u64, V)>) -> Map<u64, V>
    decreases results.len(),
{
    if results.len() == 0 {
        completed
    } else {
        apply_results(completed.insert(results[0].0, results[0].1), results.drop_first())
    }
}

/// The value a batch's answers carry for `key`, if any (a later pair for the
/// same key wins, as in [`apply_results`]).
pub open spec fn batch_value<V>(results: Seq<(u64, V)>, key: u64) -> Option<V>
    decreases results.len(),
{
    if results.len() == 0 {
        None
    } else {
        let rest = batch_value(results.drop_first(), key);
        if rest is Some {
            rest
        } else if results[0].0 == key {
            Some(results[0].1)
        } else {
            None
        }
    }
}

/// One multi-key load in flight: how far the requested keys have been
/// scanned, the pairs already served from the memoized results, and the keys
/// still to be collected after the wait.
pub struct ManyProgress<V> {
    pos: usize,
    served: Vec<(u64, V)>,
    rest: Vec<u64>,
}

impl<V> ManyProgress<V> {
    /// How many of the requested keys have been scanned.
    pub closed spec fn position(&self) -> int {
        self.pos as int
    }

    /// The pairs served straight from the memoized results while scanning.
    pub closed spec fn served_pairs(&self) -> Seq<(u64, V)> {
        self.served@
    }

    /// The keys of the served pairs, in order.
    pub open spec fn served_keys(&self) -> Seq<u64> {
        self.served_pairs().map_values(|p: (u64, V)| p.0)
    }

    /// The scanned keys that were not served yet, in order.
    pub closed spec fn rest_keys(&self) -> Seq<u64> {
        self.rest@
    }

    /// A multi-key load about to scan its first key.
    pub fn begin() -> (p: Self)
        ensures
            p.position() == 0,
            p.served_pairs() == Seq::<(u64, V)>::empty(),
            p.rest_keys() == Seq::<u64>::empty(),
    {
        ManyProgress { pos: 0, served: Vec::new(), rest: Vec::new() }
    }

    /// Whether every scanned key was served already; if so, nothing remains
    /// to dispatch or collect for this load.
    pub fn rest_is_empty(&self) -> (b: bool)
        ensures
            b == (self.rest_keys().len() == 0),
    {
        self.rest.len() == 0
    }
}

/// One scan over `keys` from `pos` on, as the first phase of a multi-key
/// load performs it over state `(completed, pending)`: a key found in
/// `completed` joins `served`; any other key joins `rest` and, if it is not
/// queued yet, the pending queue.  The scan stops early when queuing a key
/// reaches the batch bound: the drained batch is the last component, and the
/// stop position is the fourth.
pub open spec fn scan_many<V>(
    completed: Map<u64, V>,
    pending: Seq<u64>,
    served: Seq<u64>,
    rest: Seq<u64>,
    keys: Seq<u64>,
    pos: int,
    max_batch_size: usize,
) -> (Seq<u64>, Seq<u64>, Seq<u64>, int, Option<Seq<u64>>)
    decreases keys.len() - pos,
{
    if pos < 0 || pos >= keys.len() {
        (pending, served, rest, pos, None)
    } else {
        let k = keys[pos];
        if completed.contains_key(k) {
            scan_many(completed, pending, served.push(k), rest, keys, pos + 1, max_batch_size)
        } else if pending.contains(k) {
            scan_many(completed, pending, served, rest.push(k), keys, pos + 1, max_batch_size)
        } else if pending.len() + 1 >= max_batch_size {
            (Seq::empty(), served, rest.push(k), pos + 1, Some(pending.push(k)))
        } else {
            scan_many(
                completed,
                pending.push(k),
                served,
                rest.push(k),
                keys,
                pos + 1,
                max_batch_size,
            )
        }
    }
}

/// Why a lookup could not be answered.
#[derive(Clone, Copy, Debug, PartialEq, Eq, Structural)]
pub enum LoadError {
    /// The batch function's result omitted this key.
    NotFound(u64),
}

/// The shared state of a cached loader: memoized results and the keys queued
/// for the next dispatch, in arrival order.
pub struct State<C: Cache> {
    completed: C,
    pending: Vec<u64>,
}

impl<C: Cache> State<C> {
    /// The memoized results.
    pub closed spec fn completed_map(&self) -> Map<u64, C::Val> {
        self.completed.contents()
    }

    /// The keys awaiting dispatch, in arrival order.
    pub closed spec fn pending_keys(&self) -> Seq<u64> {
        self.pending@
    }

    /// Well-formed: no key is queued twice.
    pub closed spec fn inv(&self) -> bool {
        self.pending@.no_duplicates()
    }

    /// A fresh state around the given (possibly pre-warmed) cache.
    pub fn with_cache(cache: C) -> (s: Self)
        ensures
            s.completed_map() == cache.contents(),
            s.pending_keys() == Seq::<u64>::empty(),
            s.inv(),
    {
        State { completed: cache, pending: Vec::new() }
    }

    /// Serves a key from the memoized results, if it is there.
    pub fn get_completed(&mut self, key: u64) -> (r: Option<C::Val>)
        requires
            old(self).inv(),
        ensures
            final(self).inv(),
            final(self).completed_map() == old(self).completed_map(),
            final(self).pending_keys() == old(self).pending_keys(),
            match r {
                Some(v) => old(self).completed_map().contains_key(key) && cloned::<C::Val>(
                    old(self).completed_map()[key],
                    v,
                ),
                None => !old(self).completed_map().contains_key(key),
            },
    {
        self.completed.get(key)
    }

    /// Serves a key from the memoized results, or reports it unresolved:
    /// the final step of a load, after any dispatch has been applied.
    pub fn resolve(&mut self, key: u64) -> (r: Result<C::Val, LoadError>)
        requires
            old(self).inv(),
        ensures
            final(self).inv(),
            final(self).completed_map() == old(self).completed_map(),
            final(self).pending_keys() == old(self).pending_keys(),
            match r {
                Ok(v) => old(self).completed_map().contains_key(key) && cloned::<C::Val>(
                    old(self).completed_map()[key],
                    v,
                ),
                Err(e) => !old(self).completed_map().contains_key(key) && e
                    == LoadError::NotFound(key),
            },
    {
        match self.completed.get(key) {
            Some(v) => Ok(v),
            None => Err(LoadError::NotFound(key)),
        }
    }

    /// The first phase of a load: serve the key if it is completed, queue it
    /// otherwise, and drain the queue for dispatch when queuing it reached
    /// the batch bound.
    pub fn enqueue(&mut self, key: u64, max_batch_size: usize) -> (r: EnqueueOutcome<C::Val>)
        requires
            old(self).inv(),
        ensures
            final(self).inv(),
            final(self).completed_map() == old(self).completed_map(),
            final(self).pending_keys() == pending_after_enqueue(
                old(self).completed_map(),
                old(self).pending_keys(),
                key,
                max_batch_size,
            ),
            match r {
                EnqueueOutcome::Hit(v) => old(self).completed_map().contains_key(key)
                    && cloned::<C::Val>(old(self).completed_map()[key], v),
                EnqueueOutcome::Dispatch(ks) => ks@ == old(self).pending_keys().push(key)
                    && ks@.no_duplicates(),
                EnqueueOutcome::Wait => final(self).pending_keys().contains(key),
            },
            r is Hit <==> old(self).completed_map().contains_key(key),
            r is Dispatch <==> would_dispatch(
                old(self).completed_map(),
                old(self).pending_keys(),
                key,
                max_batch_size,
            ),
    {
        if let Some(v) = self.completed.get(key) {
            return EnqueueOutcome::Hit(v);
        }
        if !vec_has_key(&self.pending, key) {
            self.pending.push(key);
            if self.pending.len() >= max_batch_size {
                let ks = take_all(&mut self.pending);
                return EnqueueOutcome::Dispatch(ks);
            }
            proof {
                assert(self.pending@[self.pending@.len() - 1] == key);
            }
        }
        EnqueueOutcome::Wait
    }

    /// Drains the pending queue: the keys of the next batch, in arrival
    /// order.  An empty result means there is nothing left to dispatch.
    pub fn take_pending(&mut self) -> (ks: Vec<u64>)
        requires
            old(self).inv(),
        ensures
            final(self).inv(),
            final(self).completed_map() == old(self).completed_map(),
            final(self).pending_keys() == Seq::<u64>::empty(),
            ks@ == old(self).pending_keys(),
            ks@.no_duplicates(),
    {
        take_all(&mut self.pending)
    }

    /// Credits a batch call's answers to the memoized results, first to last.
    pub fn apply_batch_results(&mut self, results: Vec<(u64, C::Val)>)
        requires
            old(self).inv(),
        ensures
            final(self).inv(),
            final(self).completed_map() == apply_results(old(self).completed_map(), results@),
            final(self).pending_keys() == old(self).pending_keys(),
    {
        let ghost all: Seq<(u64, C::Val)> = results@;
        let mut rest = results;
        while rest.len() > 0
            invariant
                self.inv(),
                self.pending_keys() == old(self).pending_keys(),
                apply_results(self.completed_map(), rest@) == apply_results(
                    old(self).completed_map(),
                    all,
                ),
            decreases rest@.len(),
        {
            let ghost before: Seq<(u64, C::Val)> = rest@;
            let (k, v) = rest.remove(0);
            self.completed.insert(k, v);
            proof {
                assert(rest@ =~= before.drop_first());
            }
        }
    }

    /// The first phase of a multi-key load: scans the requested keys from
    /// where the last call stopped, serving completed ones and queuing the
    /// others, and stops to hand out a batch whenever queuing a key reached
    /// the batch bound.  `None` means the scan is done and the caller should
    /// wait; a batch handed out must be dispatched and its results applied
    /// before the next call.
    pub fn try_load_many_step(
        &mut self,
        keys: &Vec<u64>,
        prog: &mut ManyProgress<C::Val>,
        max_batch_size: usize,
    ) -> (r: Option<Vec<u64>>)
        requires
            old(self).inv(),
            old(prog).position() <= keys@.len(),
        ensures
            final(self).inv(),
            final(self).completed_map() == old(self).completed_map(),
            ({
                let scan = scan_many(
                    old(self).completed_map(),
                    old(self).pending_keys(),
                    old(prog).served_keys(),
                    old(prog).rest_keys(),
                    keys@,
                    old(prog).position(),
                    max_batch_size,
                );
                &&& final(self).pending_keys() == scan.0
                &&& final(prog).served_keys() == scan.1
                &&& final(prog).rest_keys() == scan.2
                &&& final(prog).position() == scan.3
                &&& match r {
                    Some(b) => scan.4 == Some(b@) && b@.no_duplicates(),
                    None => scan.4 is None && final(prog).position() == keys@.len(),
                }
            }),
            final(prog).served_pairs().len() >= old(prog).served_pairs().len(),
            final(prog).served_pairs().subrange(0, old(prog).served_pairs().len() as int) == old(
                prog,
            ).served_pairs(),
            forall|i: int|
                old(prog).served_pairs().len() <= i < final(prog).served_pairs().len() ==> {
                    let p = #[trigger] final(prog).served_pairs()[i];
                    &&& old(self).completed_map().contains_key(p.0)
                    &&& cloned::<C::Val>(old(self).completed_map()[p.0], p.1)
                },
    {
        while prog.pos < keys.len()
            invariant
                self.inv(),
                prog.pos <= keys@.len(),
                self.completed_map() == old(self).completed_map(),
                scan_many(
                    old(self).completed_map(),
                    self.pending_keys(),
                    prog.served_keys(),
                    prog.rest_keys(),
                    keys@,
                    prog.position(),
                    max_batch_size,
                ) == scan_many(
                    old(self).completed_map(),
                    old(self).pending_keys(),
                    old(prog).served_keys(),
                    old(prog).rest_keys(),
                    keys@,
                    old(prog).position(),
                    max_batch_size,
                ),
                prog.served@.len() >= old(prog).served@.len(),
                prog.served@.subrange(0, old(prog).served@.len() as int) == old(prog).served@,
                forall|i: int|
                    old(prog).served@.len() <= i < prog.served@.len() ==> {
                        let p = #[trigger] prog.served@[i];
                        &&& old(self).completed_map().contains_key(p.0)
                        &&& cloned::<C::Val>(old(self).completed_map()[p.0], p.1)
                    },
            decreases keys@.len() - prog.pos,
        {
            let ghost served_before = prog.served@;
            let key = keys[prog.pos];
            prog.pos += 1;
            if let Some(v) = self.completed.get(key) {
                prog.served.push((key, v));
                proof {
                    assert(prog.served@.map_values(|p: (u64, C::Val)| p.0) =~= served_before
                        .map_values(|p: (u64, C::Val)| p.0).push(key));
                    assert(prog.served@.subrange(0, old(prog).served@.len() as int)
                        =~= served_before.subrange(0, old(prog).served@.len() as int));
                }
            } else {
                if !vec_has_key(&self.pending, key) {
                    self.pending.push(key);
                    if self.pending.len() >= max_batch_size {
                        let b = take_all(&mut self.pending);
                        prog.rest.push(key);
                        return Some(b);
                    }
                }
                prog.rest.push(key);
            }
        }
        None
    }

    /// The last phase of a multi-key load, after any remaining batch has
    /// been dispatched and applied: collects a value for every key that was
    /// not served during the scan, after the pairs served there.  The first
    /// key still unresolved fails the whole load with `NotFound` for it.
    pub fn finish_many(&mut self, prog: ManyProgress<C::Val>) -> (r: Result<
        Vec<(u64, C::Val)>,
        LoadError,
    >)
        requires
            old(self).inv(),
        ensures
            final(self).inv(),
            final(self).completed_map() == old(self).completed_map(),
            final(self).pending_keys() == old(self).pending_keys(),
            match r {
                Ok(pairs) => {
                    &&& pairs@.len() == prog.served_pairs().len() + prog.rest_keys().len()
                    &&& pairs@.subrange(0, prog.served_pairs().len() as int)
                        == prog.served_pairs()
                    &&& forall|i: int|
                        0 <= i < prog.rest_keys().len() ==> {
                            let k = #[trigger] prog.rest_keys()[i];
                            &&& pairs@[prog.served_pairs().len() + i].0 == k
                            &&& old(self).completed_map().contains_key(k)
                            &&& cloned::<C::Val>(
                                old(self).completed_map()[k],
                                pairs@[prog.served_pairs().len() + i].1,
                            )
                        }
                },
                Err(e) => exists|i: int|
                    {
                        &&& 0 <= i < prog.rest_keys().len()
                        &&& !old(self).completed_map().contains_key(#[trigger] prog.rest_keys()[i])
                        &&& forall|j: int|
                            0 <= j < i ==> old(self).completed_map().contains_key(
                                #[trigger] prog.rest_keys()[j],
                            )
                        &&& e == LoadError::NotFound(prog.rest_keys()[i])
                    },
            },
    {
        let ManyProgress { pos: _, served, rest } = prog;
        proof {
            assert(served@ == prog.served_pairs());
            assert(rest@ == prog.rest_keys());
        }
        let mut out = served;
        let mut i: usize = 0;
        while i < rest.len()
            invariant
                self.inv(),
                i <= rest@.len(),
                rest@ == prog.rest_keys(),
                self.completed_map() == old(self).completed_map(),
                self.pending_keys() == old(self).pending_keys(),
                out@.len() == prog.served_pairs().len() + i,
                out@.subrange(0, prog.served_pairs().len() as int) == prog.served_pairs(),
                forall|j: int|
                    0 <= j < i ==> {
                        let k = #[trigger] rest@[j];
                        &&& out@[prog.served_pairs().len() + j].0 == k
                        &&& old(self).completed_map().contains_key(k)
                        &&& cloned::<C::Val>(
                            old(self).completed_map()[k],
                            out@[prog.served_pairs().len() + j].1,
                        )
                    },
            decreases rest@.len() - i,
        {
            let ghost out_before = out@;
            let key = rest[i];
            match self.completed.get(key) {
                Some(v) => {
                    out.push((key, v));
                    proof {
                        assert(out@.subrange(0, prog.served_pairs().len() as int)
                            =~= out_before.subrange(0, prog.served_pairs().len() as int));
                    }
                },
                None => {
                    proof {
                        let gi = i as int;
                        assert(prog.rest_keys()[gi] == key);
                        assert(!old(self).completed_map().contains_key(prog.rest_keys()[gi]));
                    }
                    return Err(LoadError::NotFound(key));
                },
            }
            i += 1;
        }
        Ok(out)
    }

    /// Warms the cache: stores a result without any batch call.
    pub fn prime(&mut self, key: u64, val: C::Val)
        requires
            old(self).inv(),
        ensures
            final(self).inv(),
            final(self).completed_map() == old(self).completed_map().insert(key, val),
            final(self).pending_keys() == old(self).pending_keys(),
    {
        self.completed.insert(key, val);
    }

    /// Warms the cache with several results at once, first to last.
    pub fn prime_many(&mut self, values: Vec<(u64, C::Val)>)
        requires
            old(self).inv(),
        ensures
            final(self).inv(),
            final(self).completed_map() == apply_results(old(self).completed_map(), values@),
            final(self).pending_keys() == old(self).pending_keys(),
    {
        self.apply_batch_results(values);
    }

    /// Drops one memoized entry; the pending queue is untouched.
    pub fn clear(&mut self, key: u64)
        requires
            old(self).inv(),
        ensures
            final(self).inv(),
            final(self).completed_map() == old(self).completed_map().remove(key),
            final(self).pending_keys() == old(self).pending_keys(),
    {
        self.completed.remove(key);
    }

    /// Drops every memoized entry; the pending queue is untouched.
    pub fn clear_all(&mut self)
        requires
            old(self).inv(),
        ensures
            final(self).inv(),
            final(self).completed_map() == Map::<u64, C::Val>::empty(),
            final(self).pending_keys() == old(self).pending_keys(),
    {
        self.completed.clear();
    }
}

/// Looking a key up in results applied to the memoized map: a key the batch
/// answered maps to the batch's (last) value for it; any other key is exactly
/// as it was before.
pub proof fn lemma_apply_results_lookup<V>(completed: Map<u64, V>, results: Seq<(u64, V)>, key: u64)
    ensures
        match batch_value(results, key) {
            Some(v) => apply_results(completed, results).contains_key(key) && apply_results(
                completed,
                results,
            )[key] == v,
            None => apply_results(completed, results).contains_key(key) == completed.contains_key(
                key,
            ) && (completed.contains_key(key) ==> apply_results(completed, results)[key]
                == completed[key]),
        },
    decreases results.len(),
{
    if results.len() > 0 {
        lemma_apply_results_lookup(
            completed.insert(results[0].0, results[0].1),
            results.drop_first(),
            key,
        );
    }
}

/// Result correctness: a key absent from the cache resolves after a dispatch
/// if and only if the batch answered it, and then to exactly the batch's
/// value; the unresolved case is what `resolve` reports as `NotFound`.
pub proof fn lemma_dispatch_resolution<V>(completed: Map<u64, V>, results: Seq<(u64, V)>, key: u64)
    requires
        !completed.contains_key(key),
    ensures
        apply_results(completed, results).contains_key(key) <==> batch_value(results, key) is Some,
        batch_value(results, key) matches Some(v) ==> apply_results(completed, results)[key] == v,
{
    lemma_apply_results_lookup(completed, results, key);
}

/// Batch-size bound: as long as the pending queue stays below the batch
/// bound between lock holds, every batch an enqueue step dispatches has
/// between 1 and `max_batch_size` keys, and the step leaves the queue below
/// the bound again.  (A batch drained after the wait is the pending queue
/// itself, so the same hypothesis bounds it too.)
pub proof fn lemma_batch_size_bound<V>(
    completed: Map<u64, V>,
    pending: Seq<u64>,
    key: u64,
    max_batch_size: usize,
)
    requires
        max_batch_size >= 1,
        pending.len() < max_batch_size,
    ensures
        would_dispatch(completed, pending, key, max_batch_size) ==> {
            &&& pending.push(key).len() >= 1
            &&& pending.push(key).len() <= max_batch_size
        },
        pending_after_enqueue(completed, pending, key, max_batch_size).len() < max_batch_size,
{
}

/// Memoization: enqueuing a key that is already completed dispatches
/// nothing and leaves the state exactly as it was; together with `enqueue`'s
/// contract, the caller is served the memoized value.  Only `clear` or
/// `clear_all` can make a later batch call for the key possible again.
pub proof fn lemma_memoized_key_causes_no_dispatch<V>(
    completed: Map<u64, V>,
    pending: Seq<u64>,
    key: u64,
    max_batch_size: usize,
)
    requires
        completed.contains_key(key),
    ensures
        !would_dispatch(completed, pending, key, max_batch_size),
        pending_after_enqueue(completed, pending, key, max_batch_size) == pending,
{
}

/// Batch-size bound for multi-key loads: a scan that starts with the
/// pending queue below the batch bound leaves it below the bound, and any
/// batch it hands out has between 1 and `max_batch_size` keys.
pub proof fn lemma_scan_batch_size_bound<V>(
    completed: Map<u64, V>,
    pending: Seq<u64>,
    served: Seq<u64>,
    rest: Seq<u64>,
    keys: Seq<u64>,
    pos: int,
    max_batch_size: usize,
)
    requires
        max_batch_size >= 1,
        pending.len() < max_batch_size,
    ensures
        ({
            let scan = scan_many(completed, pending, served, rest, keys, pos, max_batch_size);
            &&& scan.0.len() < max_batch_size
            &&& (scan.4 matches Some(b) ==> 1 <= b.len() <= max_batch_size)
        }),
    decreases keys.len() - pos,
{
    if 0 <= pos < keys.len() {
        let k = keys[pos];
        if completed.contains_key(k) {
            lemma_scan_batch_size_bound(
                completed,
                pending,
                served.push(k),
                rest,
                keys,
                pos + 1,
                max_batch_size,
            );
        } else if pending.contains(k) {
            lemma_scan_batch_size_bound(
                completed,
                pending,
                served,
                rest.push(k),
                keys,
                pos + 1,
                max_batch_size,
            );
        } else if pending.len() + 1 >= max_batch_size {
        } else {
            lemma_scan_batch_size_bound(
                completed,
                pending.push(k),
                served,
                rest.push(k),
                keys,
                pos + 1,
                max_batch_size,
            );
        }
    }
}

/// Along the load path the pending queue stays disjoint from the completed
/// keys: an enqueue step never queues a key it can serve.  (Priming a queued
/// key can re-introduce an overlap; the next dispatch then simply overwrites
/// the primed value.)
pub proof fn lemma_enqueue_preserves_disjointness<V>(
    completed: Map<u64, V>,
    pending: Seq<u64>,
    key: u64,
    max_batch_size: usize,
)
    requires
        forall|i: int| 0 <= i < pending.len() ==> !completed.contains_key(#[trigger] pending[i]),
    ensures
        forall|i: int|
            0 <= i < pending_after_enqueue(completed, pending, key, max_batch_size).len()
                ==> !completed.contains_key(
                #[trigger] pending_after_enqueue(completed, pending, key, max_batch_size)[i],
            ),
{
}

/// The pending queue after a round of enqueue steps, one per key in order
/// (each step as a separate caller's first phase would perform it).
pub open spec fn pending_after_enqueue_round<V>(
    completed: Map<u64, V>,
    pending: Seq<u64>,
    keys: Seq<u64>,
    max_batch_size: usize,
) -> Seq<u64>
    decreases keys.len(),
{
    if keys.len() == 0 {
        pending
    } else {
        pending_after_enqueue_round(
            completed,
            pending_after_enqueue(completed, pending, keys[0], max_batch_size),
            keys.drop_first(),
            max_batch_size,
        )
    }
}

/// While the queue stays strictly below the batch bound, a round of enqueue
/// steps for fresh, distinct, uncompleted keys dispatches nothing and simply
/// appends the keys to the queue.
pub proof fn lemma_enqueue_round_accumulates<V>(
    completed: Map<u64, V>,
    pending: Seq<u64>,
    keys: Seq<u64>,
    max_batch_size: usize,
)
    requires
        pending.len() + keys.len() < max_batch_size,
        keys.no_duplicates(),
        forall|i: int| 0 <= i < keys.len() ==> !completed.contains_key(#[trigger] keys[i]),
        forall|i: int| 0 <= i < keys.len() ==> !pending.contains(#[trigger] keys[i]),
    ensures
        pending_after_enqueue_round(completed, pending, keys, max_batch_size) == pending + keys,
    decreases keys.len(),
{
    if keys.len() == 0 {
        assert(pending + keys =~= pending);
    } else {
        let key = keys[0];
        let pending1 = pending_after_enqueue(completed, pending, key, max_batch_size);
        assert(pending1 == pending.push(key));
        assert forall|i: int| 0 <= i < keys.drop_first().len() implies !pending1.contains(
            #[trigger] keys.drop_first()[i],
        ) by {
            let k = keys.drop_first()[i];
            assert(k == keys[i + 1]);
            assert(!pending.contains(k));
            if pending1.contains(k) {
                let j = choose|j: int| 0 <= j < pending1.len() && pending1[j] == k;
                if j < pending.len() {
                    assert(pending[j] == k);
                } else {
                    assert(k == key);
                }
            }
        }
        lemma_enqueue_round_accumulates(
            completed,
            pending1,
            keys.drop_first(),
            max_batch_size,
        );
        assert(pending.push(key) + keys.drop_first() =~= pending + keys);
    }
}

/// Batching effectiveness: when several sibling callers enqueue distinct,
/// uncompleted keys into an empty queue within one coordination window, the
/// keys end up in one batch — either the last enqueue reaches the bound and
/// dispatches all of them at once, or they all rest in the queue and the
/// first post-wait poll drains all of them as one batch.
pub proof fn lemma_batching_effectiveness<V>(
    completed: Map<u64, V>,
    keys: Seq<u64>,
    max_batch_size: usize,
)
    requires
        1 <= keys.len() <= max_batch_size,
        keys.no_duplicates(),
        forall|i: int| 0 <= i < keys.len() ==> !completed.contains_key(#[trigger] keys[i]),
    ensures
        pending_after_enqueue_round(
            completed,
            Seq::empty(),
            keys.drop_last(),
            max_batch_size,
        ) == keys.drop_last(),
        keys.len() == max_batch_size ==> would_dispatch(
            completed,
            keys.drop_last(),
            keys.last(),
            max_batch_size,
        ),
        keys.len() < max_batch_size ==> pending_after_enqueue_round(
            completed,
            Seq::empty(),
            keys,
            max_batch_size,
        ) == keys,
{
    let front = keys.drop_last();
    assert(forall|i: int| 0 <= i < front.len() ==> front[i] == keys[i]);
    assert(forall|i: int|
        0 <= i < front.len() ==> !completed.contains_key(#[trigger] front[i]));
    lemma_enqueue_round_accumulates(completed, Seq::empty(), front, max_batch_size);
    assert(Seq::empty() + front =~= front);
    if keys.len() == max_batch_size {
        if front.contains(keys.last()) {
            let j = choose|j: int| 0 <= j < front.len() && front[j] == keys.last();
            assert(keys[j] == keys[keys.len() - 1]);
        }
    } else {
        lemma_enqueue_round_accumulates(completed, Seq::empty(), keys, max_batch_size);
        assert(Seq::empty() + keys =~= keys);
    }
}

/// Whether the queue already holds `key`.
fn vec_has_key(v: &Vec<u64>, key: u64) -> (b: bool)
    ensures
        b == v@.contains(key),
{
    let mut i: usize = 0;
    while i < v.len()
        invariant
            i <= v@.len(),
            forall|j: int| 0 <= j < i ==> v@[j] != key,
        decreases v@.len() - i,
    {
        if v[i] == key {
            return true;
        }
        i += 1;
    }
    false
}

/// Empties the queue, handing its keys back in order.
fn take_all(v: &mut Vec<u64>) -> (out: Vec<u64>)
    ensures
        out@ == old(v)@,
        final(v)@ == Seq::<u64>::empty(),
{
    let mut out: Vec<u64> = Vec::new();
    let mut i: usize = 0;
    while i < v.len()
        invariant
            i <= v@.len(),
            v@ == old(v)@,
            out@ == v@.subrange(0, i as int),
        decreases v@.len() - i,
    {
        out.push(v[i]);
        i += 1;
    }
    proof {
        assert(out@ =~= old(v)@);
    }
    v.clear();
    out
}

} // verus!
