//! The per-request (non-cached) batching coordinator.
//!
//! Every load call is its own request: it gets a fresh request id, so two
//! concurrent calls for the same key are kept apart.  Queued requests are
//! dispatched together — the batch function sees each distinct key once —
//! and every request id is then credited with its own clone of the shared
//! answer, which is evicted as soon as the caller picks it up.  All
//! decisions taken while the state lock is held are methods of [`State`];
//! the driver around it only relays batch calls and waits.

use vstd::prelude::*;
use std::collections::HashMap;

verus! {

broadcast use vstd::std_specs::hash::group_hash_axioms;

/// The distinct keys of a run of queued requests, first occurrence first.
pub open spec fn dedup_keys(assignments: Seq<(usize, u64)>) -> Seq<u64>
    decreases assignments.len(),
{
    if assignments.len() == 0 {
        Seq::empty()
    } else {
        let front = dedup_keys(assignments.drop_last());
        let k = assignments.last().1;
        if front.contains(k) {
            front
        } else {
            front.push(k)
        }
    }
}

/// Deduplication is sound and complete: the distinct keys hold each queued
/// key exactly once, and nothing else.
pub proof fn lemma_dedup_keys(assignments: Seq<(usize, u64)>)
    ensures
        dedup_keys(assignments).no_duplicates(),
        forall|k: u64|
            dedup_keys(assignments).contains(k) <==> exists|i: int|
                0 <= i < assignments.len() && (#[trigger] assignments[i]).1 == k,
        dedup_keys(assignments).len() <= assignments.len(),
        assignments.len() > 0 ==> dedup_keys(assignments).len() >= 1,
    decreases assignments.len(),
{
    if assignments.len() > 0 {
        let front_src = assignments.drop_last();
        let front = dedup_keys(front_src);
        let k = assignments.last().1;
        lemma_dedup_keys(front_src);
        if !front.contains(k) {
            assert forall|i: int, j: int|
                0 <= i < j < front.push(k).len() implies front.push(k)[i] != front.push(k)[j] by {
                if j < front.len() {
                    assert(front[i] != front[j]);
                } else {
                    assert(front.push(k)[j] == k);
                    if front.push(k)[i] == k {
                        assert(front[i] == k);
                        assert(front.contains(k));
                    }
                }
            }
        }
        assert forall|kk: u64| dedup_keys(assignments).contains(kk) implies exists|i: int|
            0 <= i < assignments.len() && (#[trigger] assignments[i]).1 == kk by {
            if front.contains(kk) {
                let i = choose|i: int|
                    0 <= i < front_src.len() && (#[trigger] front_src[i]).1 == kk;
                assert(assignments[i].1 == kk);
            } else {
                assert(kk == k);
                assert(assignments[assignments.len() - 1].1 == kk);
            }
        }
        assert forall|kk: u64|
            (exists|i: int| 0 <= i < assignments.len() && (#[trigger] assignments[i]).1 == kk)
            implies dedup_keys(assignments).contains(kk) by {
            let i = choose|i: int|
                0 <= i < assignments.len() && (#[trigger] assignments[i]).1 == kk;
            if i < assignments.len() - 1 {
                assert(front_src[i].1 == kk);
                assert(front.contains(kk));
                if !front.contains(k) {
                    assert(front.push(k).contains(kk)) by {
                        let j = choose|j: int| 0 <= j < front.len() && front[j] == kk;
                        assert(front.push(k)[j] == kk);
                    }
                }
            } else {
                assert(kk == k);
                if !front.contains(k) {
                    assert(front.push(k)[front.len() as int] == k);
                }
            }
        }
    }
}

/// Batch-size bound: as long as the request queue stays below the batch
/// bound between lock holds, the batch that a register step dispatches — and
/// likewise any queue drained after the wait — carries between 1 and
/// `max_batch_size` distinct keys.
pub proof fn lemma_batch_size_bound(
    pending: Seq<(usize, u64)>,
    id: usize,
    key: u64,
    max_batch_size: usize,
)
    requires
        max_batch_size >= 1,
        pending.len() < max_batch_size,
    ensures
        1 <= dedup_keys(pending.push((id, key))).len() <= max_batch_size,
        pending.len() > 0 ==> 1 <= dedup_keys(pending).len() < max_batch_size,
{
    lemma_dedup_keys(pending.push((id, key)));
    lemma_dedup_keys(pending);
    assert(pending.push((id, key))[pending.len() as int].1 == key);
}

/// Request identity: when every queued request asks for the same key — as
/// with concurrent loads of one key — the dispatched batch carries that key
/// exactly once, and each request id is then credited separately.
pub proof fn lemma_same_key_requests_one_key(assignments: Seq<(usize, u64)>, k: u64)
    requires
        assignments.len() >= 1,
        forall|i: int| 0 <= i < assignments.len() ==> (#[trigger] assignments[i]).1 == k,
    ensures
        dedup_keys(assignments) == seq![k],
    decreases assignments.len(),
{
    if assignments.len() == 1 {
        assert(dedup_keys(assignments.drop_last()) == Seq::<u64>::empty());
        assert(dedup_keys(assignments) =~= seq![k]);
    } else {
        let front_src = assignments.drop_last();
        assert(forall|i: int|
            0 <= i < front_src.len() ==> (#[trigger] front_src[i]).1 == assignments[i].1);
        lemma_same_key_requests_one_key(front_src, k);
        assert(dedup_keys(front_src)[0] == k);
        assert(dedup_keys(front_src).contains(k));
        assert(dedup_keys(assignments) =~= seq![k]);
    }
}

/// A batch handed out for dispatch: which request ids asked for which keys,
/// and the distinct keys to pass to the batch function.
pub struct Batch {
    assignments: Vec<(usize, u64)>,
    keys: Vec<u64>,
}

impl Batch {
    /// The queued requests this batch answers, in arrival order.
    pub closed spec fn assignment_pairs(&self) -> Seq<(usize, u64)> {
        self.assignments@
    }

    /// The distinct keys of the batch, first occurrence first.
    pub closed spec fn key_seq(&self) -> Seq<u64> {
        self.keys@
    }

    /// A batch as handed out: ids distinct, keys the deduplication of the
    /// assignments.
    pub open spec fn wf(&self) -> bool {
        &&& self.assignment_pairs().map_values(|p: (usize, u64)| p.0).no_duplicates()
        &&& self.key_seq() == dedup_keys(self.assignment_pairs())
    }

    /// The distinct keys, to hand to the batch function.
    pub fn keys(&self) -> (ks: &Vec<u64>)
        ensures
            ks@ == self.key_seq(),
    {
        &self.keys
    }
}

/// The batch function's answer for `key`, if any: the first pair that
/// carries the key wins.
pub open spec fn first_result<V, E>(results: Seq<(u64, Result<V, E>)>, key: u64) -> Option<
    Result<V, E>,
>
    decreases results.len(),
{
    if results.len() == 0 {
        None
    } else if results[0].0 == key {
        Some(results[0].1)
    } else {
        first_result(results.drop_first(), key)
    }
}

/// `b` could be a clone of `a`: same constructor, payload a clone.
pub open spec fn cloned_result<V: Clone, E: Clone>(a: Result<V, E>, b: Result<V, E>) -> bool {
    match (a, b) {
        (Ok(x), Ok(y)) => cloned::<V>(x, y),
        (Err(x), Err(y)) => cloned::<E>(x, y),
        _ => false,
    }
}

/// `after` agrees with `before` on every request id outside `ids`.
pub open spec fn unchanged_outside<V: Clone, E: Clone>(
    before: Map<usize, Result<V, E>>,
    after: Map<usize, Result<V, E>>,
    ids: Seq<usize>,
) -> bool {
    forall|id: usize|
        !ids.contains(id) ==> {
            &&& #[trigger] after.contains_key(id) == before.contains_key(id)
            &&& before.contains_key(id) ==> after[id] == before[id]
        }
}

/// The shared state of a non-cached loader: results awaiting pickup, queued
/// requests in arrival order, and the request-id counter.
pub struct State<V, E> {
    completed: HashMap<usize, Result<V, E>>,
    pending: Vec<(usize, u64)>,
    id_seq: usize,
}

impl<V: Clone, E: Clone> State<V, E> {
    /// Results awaiting pickup, by request id.
    pub closed spec fn completed_results(&self) -> Map<usize, Result<V, E>> {
        self.completed@
    }

    /// Queued requests, in arrival order.
    pub closed spec fn pending_requests(&self) -> Seq<(usize, u64)> {
        self.pending@
    }

    /// The id the next registered request will get.
    pub closed spec fn next_request_id(&self) -> usize {
        self.id_seq
    }

    /// The ids of the queued requests, in arrival order.
    pub open spec fn pending_ids(&self) -> Seq<usize> {
        self.pending_requests().map_values(|p: (usize, u64)| p.0)
    }

    /// Whether a request id is still owed an answer: queued, or completed
    /// but not yet picked up.
    pub open spec fn in_flight(&self, id: usize) -> bool {
        self.pending_ids().contains(id) || self.completed_results().contains_key(id)
    }

    /// Well-formed: no request id is queued twice.
    pub open spec fn inv(&self) -> bool {
        self.pending_ids().no_duplicates()
    }

    /// A fresh, empty state.
    pub fn new() -> (s: Self)
        ensures
            s.completed_results() == Map::<usize, Result<V, E>>::empty(),
            s.pending_requests() == Seq::<(usize, u64)>::empty(),
            s.next_request_id() == 0,
            s.inv(),
    {
        State { completed: HashMap::new(), pending: Vec::new(), id_seq: 0 }
    }

    /// Whether the next request id is unused; it always is in practice, as
    /// ids wrap only after `usize::MAX` calls and entries are removed on
    /// delivery.
    pub fn next_id_is_free(&self) -> (b: bool)
        ensures
            b == !self.in_flight(self.next_request_id()),
    {
        if self.completed.contains_key(&self.id_seq) {
            return false;
        }
        let mut i: usize = 0;
        while i < self.pending.len()
            invariant
                i <= self.pending@.len(),
                forall|j: int| 0 <= j < i ==> (#[trigger] self.pending@[j]).0 != self.id_seq,
                !self.completed_results().contains_key(self.next_request_id()),
            decreases self.pending@.len() - i,
        {
            if self.pending[i].0 == self.id_seq {
                proof {
                    assert(self.pending_ids()[i as int] == self.id_seq);
                }
                return false;
            }
            i += 1;
        }
        proof {
            if self.pending_ids().contains(self.id_seq) {
                let j = choose|j: int|
                    0 <= j < self.pending_ids().len() && self.pending_ids()[j] == self.id_seq;
                assert(self.pending@[j].0 == self.id_seq);
            }
        }
        true
    }

    /// Registers one load call: assigns it the next request id and queues
    /// the pair; when queuing it reaches the batch bound, the whole queue is
    /// drained into a batch to dispatch now.
    pub fn register(&mut self, key: u64, max_batch_size: usize) -> (r: (usize, Option<Batch>))
        requires
            old(self).inv(),
            !old(self).in_flight(old(self).next_request_id()),
        ensures
            final(self).inv(),
            final(self).completed_results() == old(self).completed_results(),
            r.0 == old(self).next_request_id(),
            final(self).next_request_id() == (if old(self).next_request_id() == usize::MAX {
                0usize
            } else {
                (old(self).next_request_id() + 1) as usize
            }),
            ({
                let queued = old(self).pending_requests().push((r.0, key));
                match r.1 {
                    Some(b) => {
                        &&& queued.len() >= max_batch_size
                        &&& b.assignment_pairs() == queued
                        &&& b.wf()
                        &&& final(self).pending_requests() == Seq::<(usize, u64)>::empty()
                    },
                    None => {
                        &&& queued.len() < max_batch_size
                        &&& final(self).pending_requests() == queued
                    },
                }
            }),
    {
        let id = self.id_seq;
        self.id_seq = self.id_seq.wrapping_add(1);
        let ghost before = self.pending@;
        self.pending.push((id, key));
        proof {
            assert(self.pending@.map_values(|p: (usize, u64)| p.0) =~= before.map_values(
                |p: (usize, u64)| p.0,
            ).push(id));
            let ids = before.map_values(|p: (usize, u64)| p.0);
            if ids.contains(id) {
                assert(old(self).pending_ids().contains(id));
            }
            assert forall|i: int, j: int|
                0 <= i < j < ids.push(id).len() implies ids.push(id)[i] != ids.push(id)[j] by {
                if j < ids.len() {
                    assert(ids[i] != ids[j]);
                } else {
                    if ids.push(id)[i] == id {
                        assert(ids[i] == id);
                        assert(ids.contains(id));
                    }
                }
            }
        }
        if self.pending.len() >= max_batch_size {
            let assignments = take_all_pairs(&mut self.pending);
            let keys = dedup(&assignments);
            proof {
                lemma_dedup_keys(assignments@);
            }
            (id, Some(Batch { assignments, keys }))
        } else {
            (id, None)
        }
    }

    /// Drains the queue after the wait: the remaining requests as one batch,
    /// or nothing if siblings already dispatched them all.
    pub fn drain_pending(&mut self) -> (r: Option<Batch>)
        requires
            old(self).inv(),
        ensures
            final(self).inv(),
            final(self).completed_results() == old(self).completed_results(),
            final(self).next_request_id() == old(self).next_request_id(),
            final(self).pending_requests() == Seq::<(usize, u64)>::empty(),
            match r {
                Some(b) => {
                    &&& old(self).pending_requests().len() > 0
                    &&& b.assignment_pairs() == old(self).pending_requests()
                    &&& b.wf()
                },
                None => old(self).pending_requests().len() == 0,
            },
    {
        if self.pending.len() == 0 {
            return None;
        }
        let assignments = take_all_pairs(&mut self.pending);
        let keys = dedup(&assignments);
        proof {
            lemma_dedup_keys(assignments@);
        }
        Some(Batch { assignments, keys })
    }

    /// Credits a dispatched batch: every request id in it gets its own clone
    /// of the batch function's answer for its key.  An answer missing for
    /// some queued key is a contract violation: the first such key is
    /// reported and nothing is credited.
    pub fn apply_batch(&mut self, batch: Batch, results: Vec<(u64, Result<V, E>)>) -> (r: Result<
        (),
        u64,
    >)
        requires
            old(self).inv(),
            batch.wf(),
            forall|i: int|
                0 <= i < batch.assignment_pairs().len() ==> !old(self).in_flight(
                    (#[trigger] batch.assignment_pairs()[i]).0,
                ),
        ensures
            final(self).inv(),
            final(self).pending_requests() == old(self).pending_requests(),
            final(self).next_request_id() == old(self).next_request_id(),
            match r {
                Ok(()) => {
                    &&& unchanged_outside(
                        old(self).completed_results(),
                        final(self).completed_results(),
                        batch.assignment_pairs().map_values(|p: (usize, u64)| p.0),
                    )
                    &&& forall|i: int|
                        0 <= i < batch.assignment_pairs().len() ==> {
                            let p = #[trigger] batch.assignment_pairs()[i];
                            &&& first_result(results@, p.1) is Some
                            &&& final(self).completed_results().contains_key(p.0)
                            &&& cloned_result::<V, E>(
                                first_result(results@, p.1)->0,
                                final(self).completed_results()[p.0],
                            )
                        }
                },
                Err(k) => {
                    &&& final(self).completed_results() == old(self).completed_results()
                    &&& first_result(results@, k) is None
                    &&& exists|i: int|
                        {
                            &&& 0 <= i < batch.assignment_pairs().len()
                            &&& (#[trigger] batch.assignment_pairs()[i]).1 == k
                            &&& forall|j: int|
                                0 <= j < i ==> first_result(
                                    results@,
                                    (#[trigger] batch.assignment_pairs()[j]).1,
                                ) is Some
                        }
                },
            },
    {
        let mut i: usize = 0;
        while i < batch.assignments.len()
            invariant
                self.inv(),
                self.completed_results() == old(self).completed_results(),
                self.pending_requests() == old(self).pending_requests(),
                self.next_request_id() == old(self).next_request_id(),
                i <= batch.assignment_pairs().len(),
                forall|j: int|
                    0 <= j < i ==> first_result(
                        results@,
                        (#[trigger] batch.assignment_pairs()[j]).1,
                    ) is Some,
            decreases batch.assignment_pairs().len() - i,
        {
            let k = batch.assignments[i].1;
            if lookup_result(&results, k).is_none() {
                proof {
                    assert((batch.assignment_pairs()[i as int]).1 == k);
                }
                return Err(k);
            }
            i += 1;
        }
        let ghost ids = batch.assignment_pairs().map_values(|p: (usize, u64)| p.0);
        let mut i: usize = 0;
        while i < batch.assignments.len()
            invariant
                self.inv(),
                i <= batch.assignment_pairs().len(),
                batch.wf(),
                self.pending_requests() == old(self).pending_requests(),
                self.next_request_id() == old(self).next_request_id(),
                ids == batch.assignment_pairs().map_values(|p: (usize, u64)| p.0),
                forall|j: int|
                    0 <= j < batch.assignment_pairs().len() ==> first_result(
                        results@,
                        (#[trigger] batch.assignment_pairs()[j]).1,
                    ) is Some,
                unchanged_outside(old(self).completed_results(), self.completed_results(), ids),
                forall|j: int|
                    0 <= j < i ==> {
                        let p = #[trigger] batch.assignment_pairs()[j];
                        &&& self.completed_results().contains_key(p.0)
                        &&& cloned_result::<V, E>(
                            first_result(results@, p.1)->0,
                            self.completed_results()[p.0],
                        )
                    },
            decreases batch.assignment_pairs().len() - i,
        {
            let id = batch.assignments[i].0;
            let k = batch.assignments[i].1;
            let idx = lookup_result(&results, k).unwrap();
            let credited: Result<V, E> = match &results[idx].1 {
                Ok(v) => Ok(v.clone()),
                Err(e) => Err(e.clone()),
            };
            proof {
                assert(ids[i as int] == id);
                assert forall|j: int| 0 <= j < i implies (#[trigger] batch.assignment_pairs()[
                    j
                ]).0 != id by {
                    assert(ids[j] == batch.assignment_pairs()[j].0);
                }
            }
            self.completed.insert(id, credited);
            i += 1;
        }
        Ok(())
    }

    /// Delivers a request's answer, evicting it: a request id yields its
    /// credited result exactly once.
    pub fn take_completed(&mut self, request_id: usize) -> (r: Option<Result<V, E>>)
        requires
            old(self).inv(),
        ensures
            final(self).inv(),
            final(self).pending_requests() == old(self).pending_requests(),
            final(self).next_request_id() == old(self).next_request_id(),
            final(self).completed_results() == old(self).completed_results().remove(request_id),
            match r {
                Some(res) => old(self).completed_results().contains_key(request_id) && res == old(
                    self,
                ).completed_results()[request_id],
                None => !old(self).completed_results().contains_key(request_id),
            },
    {
        self.completed.remove(&request_id)
    }
}

/// Empties the request queue, handing its pairs back in order.
fn take_all_pairs(v: &mut Vec<(usize, u64)>) -> (out: Vec<(usize, u64)>)
    ensures
        out@ == old(v)@,
        final(v)@ == Seq::<(usize, u64)>::empty(),
{
    let mut out: Vec<(usize, u64)> = Vec::new();
    let mut i: usize = 0;
    while i < v.len()
        invariant
            i <= v@.len(),
            v@ == old(v)@,
            out@ == v@.subrange(0, i as int),
        decreases v@.len() - i,
    {
        out.push(v[i]);
        i += 1;
    }
    proof {
        assert(out@ =~= old(v)@);
    }
    v.clear();
    out
}

/// The distinct keys of the queued requests, first occurrence first.
fn dedup(assignments: &Vec<(usize, u64)>) -> (ks: Vec<u64>)
    ensures
        ks@ == dedup_keys(assignments@),
{
    let mut ks: Vec<u64> = Vec::new();
    let mut i: usize = 0;
    while i < assignments.len()
        invariant
            i <= assignments@.len(),
            ks@ == dedup_keys(assignments@.subrange(0, i as int)),
        decreases assignments@.len() - i,
    {
        let k = assignments[i].1;
        let ghost prefix = assignments@.subrange(0, i as int);
        let mut found = false;
        let mut j: usize = 0;
        while j < ks.len()
            invariant
                j <= ks@.len(),
                found ==> ks@.contains(k),
                !found ==> forall|jj: int| 0 <= jj < j ==> ks@[jj] != k,
                ks@ == dedup_keys(prefix),
                i <= assignments@.len(),
                k == assignments@[i as int].1,
            decreases ks@.len() - j,
        {
            if ks[j] == k {
                proof {
                    assert(ks@[j as int] == k);
                }
                found = true;
            }
            j += 1;
        }
        if !found {
            ks.push(k);
        }
        i += 1;
        proof {
            let next = assignments@.subrange(0, i as int);
            assert(next.drop_last() =~= prefix);
            assert(next.last() == assignments@[i - 1]);
        }
    }
    proof {
        assert(assignments@.subrange(0, assignments@.len() as int) =~= assignments@);
    }
    ks
}

/// The position of the first answer for `key` in the batch function's
/// results, if any.
fn lookup_result<V: Clone, E: Clone>(results: &Vec<(u64, Result<V, E>)>, key: u64) -> (r: Option<
    usize,
>)
    ensures
        match r {
            Some(idx) => idx < results@.len() && results@[idx as int].0 == key && first_result(
                results@,
                key,
            ) == Some(results@[idx as int].1),
            None => first_result(results@, key) is None,
        },
{
    let mut i: usize = 0;
    proof {
        assert(results@.subrange(0, results@.len() as int) =~= results@);
    }
    while i < results.len()
        invariant
            i <= results@.len(),
            first_result(results@, key) == first_result(
                results@.subrange(i as int, results@.len() as int),
                key,
            ),
            forall|j: int| 0 <= j < i ==> (#[trigger] results@[j]).0 != key,
        decreases results@.len() - i,
    {
        let ghost tail = results@.subrange(i as int, results@.len() as int);
        if results[i].0 == key {
            proof {
                assert(tail[0] == results@[i as int]);
            }
            return Some(i);
        }
        i += 1;
        proof {
            assert(tail.drop_first() =~= results@.subrange(i as int, results@.len() as int));
        }
    }
    None
}

} // verus!
