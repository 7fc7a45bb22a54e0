//! Properties of whole sequences of operations on a `PackedFreelist`, stated
//! over the views that the operations' contracts describe.

use vstd::prelude::*;

use crate::error::{AllocationError, NotFound};
use crate::freelist::{
    insert_spec, lemma_swap_remove_view, remove_spec, view_wf, FreelistView,
};
use crate::ids::{generation_of, lemma_next_id, slot_of, AllocationID};

verus! {

/// One completed call of `insert` or `remove`, with what it returned.
pub enum Call<T> {
    Insert { value: T, result: Result<AllocationID, AllocationError> },
    Remove { id: AllocationID, outcome: Result<(), NotFound> },
}

/// What a call does to a container seen as `pre` before and `post` after.
pub open spec fn call_spec<T>(pre: FreelistView<T>, post: FreelistView<T>, c: Call<T>) -> bool {
    match c {
        Call::Insert { value, result } => insert_spec(pre, post, value, result),
        Call::Remove { id, outcome } => remove_spec(pre, post, id, outcome),
    }
}

/// `states[k]` is a container seen after the first `k` of `calls`, starting
/// empty.
pub open spec fn is_history<T>(states: Seq<FreelistView<T>>, calls: Seq<Call<T>>) -> bool {
    &&& states.len() == calls.len() + 1
    &&& states[0].ids.len() == 0
    &&& forall|k: int| 0 <= k < states.len() ==> view_wf(#[trigger] states[k])
    &&& forall|k: int|
        0 <= k < calls.len() ==> call_spec(#[trigger] states[k], states[k + 1], calls[k])
}

/// The call was an insertion that handed out `x`.
pub open spec fn issued<T>(c: Call<T>, x: AllocationID) -> bool {
    match c {
        Call::Insert { result, .. } => result == Ok::<AllocationID, AllocationError>(x),
        Call::Remove { .. } => false,
    }
}

/// The call was a removal of `x` that succeeded.
pub open spec fn retired<T>(c: Call<T>, x: AllocationID) -> bool {
    match c {
        Call::Insert { .. } => false,
        Call::Remove { id, outcome } => id == x && outcome is Ok,
    }
}

/// Some call handed out `x`, and no later call removed it.
pub open spec fn issued_and_kept<T>(calls: Seq<Call<T>>, x: AllocationID) -> bool {
    exists|i: int|
        0 <= i < calls.len() && #[trigger] issued(calls[i], x) && forall|j: int|
            i < j < calls.len() ==> !retired(#[trigger] calls[j], x)
}

/// The number of insertions that succeeded.
pub open spec fn inserts_done<T>(calls: Seq<Call<T>>) -> int
    decreases calls.len(),
{
    if calls.len() == 0 {
        0
    } else {
        inserts_done(calls.drop_last()) + match calls.last() {
            Call::Insert { result, .. } => if result is Ok {
                1int
            } else {
                0
            },
            Call::Remove { .. } => 0,
        }
    }
}

/// The number of removals that succeeded.
pub open spec fn removes_done<T>(calls: Seq<Call<T>>) -> int
    decreases calls.len(),
{
    if calls.len() == 0 {
        0
    } else {
        removes_done(calls.drop_last()) + match calls.last() {
            Call::Insert { .. } => 0,
            Call::Remove { outcome, .. } => if outcome is Ok {
                1int
            } else {
                0
            },
        }
    }
}

/// The values are packed: each position below the length holds the value of
/// a live id, and the live ids are exactly the ones at those positions.
pub proof fn lemma_packed<T>(v: FreelistView<T>)
    requires
        view_wf(v),
    ensures
        v.values.len() == v.ids.len(),
        forall|p: int|
            0 <= p < v.ids.len() ==> v.contains(#[trigger] v.ids[p]) && v.value_of(v.ids[p])
                == v.values[p],
        forall|x: AllocationID|
            #[trigger] v.contains(x) ==> 0 <= v.ids.index_of(x) < v.ids.len(),
{
    assert forall|p: int| 0 <= p < v.ids.len() implies v.contains(#[trigger] v.ids[p])
        && v.value_of(v.ids[p]) == v.values[p] by {
        assert(v.ids.contains(v.ids[p]));
        assert(v.ids[v.ids.index_of(v.ids[p])] == v.ids[p]);
    }
}

/// Insertions into an empty container succeed exactly while fewer values
/// than its capacity are stored: with capacity `n`, the first `n` succeed
/// and every later one fails.
pub proof fn lemma_fill_to_capacity<T>(
    states: Seq<FreelistView<T>>,
    values: Seq<T>,
    results: Seq<Result<AllocationID, AllocationError>>,
)
    requires
        states.len() == results.len() + 1,
        values.len() == results.len(),
        states[0].ids.len() == 0,
        forall|k: int|
            0 <= k < results.len() ==> insert_spec(
                #[trigger] states[k],
                states[k + 1],
                values[k],
                results[k],
            ),
    ensures
        forall|k: int|
            0 <= k < results.len() ==> (#[trigger] results[k] is Ok <==> k < states[0].capacity)
                && (results[k] matches Err(e) ==> e.allocation_index == states[0].capacity + 1),
{
    assert forall|k: int| 0 <= k < results.len() implies (#[trigger] results[k] is Ok <==> k
        < states[0].capacity) && (results[k] matches Err(e) ==> e.allocation_index
        == states[0].capacity + 1) by {
        lemma_fill_length(states, values, results, k);
        assert(insert_spec(states[k], states[k + 1], values[k], results[k]));
    }
}

/// The length after `k` insertions into an empty container.
proof fn lemma_fill_length<T>(
    states: Seq<FreelistView<T>>,
    values: Seq<T>,
    results: Seq<Result<AllocationID, AllocationError>>,
    k: int,
)
    requires
        states.len() == results.len() + 1,
        values.len() == results.len(),
        states[0].ids.len() == 0,
        forall|j: int|
            0 <= j < results.len() ==> insert_spec(
                #[trigger] states[j],
                states[j + 1],
                values[j],
                results[j],
            ),
        0 <= k < states.len(),
    ensures
        states[k].capacity == states[0].capacity,
        states[k].ids.len() == if k < states[0].capacity {
            k
        } else {
            states[0].capacity as int
        },
    decreases k,
{
    if k > 0 {
        lemma_fill_length(states, values, results, k - 1);
        assert(insert_spec(states[k - 1], states[k], values[k - 1], results[k - 1]));
    }
}

/// The number of live values is the number of successful insertions minus
/// the number of successful removals.
pub proof fn lemma_live_count<T>(states: Seq<FreelistView<T>>, calls: Seq<Call<T>>)
    requires
        is_history(states, calls),
    ensures
        states.last().ids.len() == inserts_done(calls) - removes_done(calls),
    decreases calls.len(),
{
    if calls.len() > 0 {
        let n = calls.len() - 1;
        assert(is_history(states.drop_last(), calls.drop_last())) by {
            assert forall|k: int| 0 <= k < states.len() - 1 implies view_wf(
                #[trigger] states.drop_last()[k],
            ) by {
                assert(view_wf(states[k]));
            }
            assert forall|k: int| 0 <= k < calls.len() - 1 implies call_spec(
                #[trigger] states.drop_last()[k],
                states.drop_last()[k + 1],
                calls.drop_last()[k],
            ) by {
                assert(call_spec(states[k], states[k + 1], calls[k]));
            }
        }
        lemma_live_count(states.drop_last(), calls.drop_last());
        assert(call_spec(states[n], states[n + 1], calls[n]));
        assert(view_wf(states[n]));
    }
}

/// An id is live exactly when some insertion handed it out and no later
/// removal took it back.
pub proof fn lemma_live_ids<T>(states: Seq<FreelistView<T>>, calls: Seq<Call<T>>, x: AllocationID)
    requires
        is_history(states, calls),
    ensures
        states.last().contains(x) <==> issued_and_kept(calls, x),
    decreases calls.len(),
{
    if calls.len() == 0 {
        assert(!states[0].ids.contains(x));
    } else {
        let n = calls.len() - 1;
        let prev = calls.drop_last();
        assert(is_history(states.drop_last(), prev)) by {
            assert forall|k: int| 0 <= k < states.len() - 1 implies view_wf(
                #[trigger] states.drop_last()[k],
            ) by {
                assert(view_wf(states[k]));
            }
            assert forall|k: int| 0 <= k < calls.len() - 1 implies call_spec(
                #[trigger] states.drop_last()[k],
                states.drop_last()[k + 1],
                prev[k],
            ) by {
                assert(call_spec(states[k], states[k + 1], calls[k]));
            }
        }
        lemma_live_ids(states.drop_last(), prev, x);
        let pre = states[n];
        let post = states[n + 1];
        let c = calls[n];
        assert(call_spec(pre, post, c));
        assert(view_wf(pre) && view_wf(post));
        // A witness for the earlier calls is one for all calls, unless the
        // last call removed `x`.
        if issued_and_kept(prev, x) && !retired(c, x) {
            let i = choose|i: int|
                0 <= i < prev.len() && #[trigger] issued(prev[i], x) && forall|j: int|
                    i < j < prev.len() ==> !retired(#[trigger] prev[j], x);
            assert(issued(calls[i], x));
            assert forall|j: int| i < j < calls.len() implies !retired(#[trigger] calls[j], x) by {
                if j < n {
                    assert(calls[j] == prev[j]);
                }
            }
        }
        // A witness for all calls is one for the earlier calls, unless it
        // is the last call.
        if issued_and_kept(calls, x) && !issued(c, x) {
            let i = choose|i: int|
                0 <= i < calls.len() && #[trigger] issued(calls[i], x) && forall|j: int|
                    i < j < calls.len() ==> !retired(#[trigger] calls[j], x);
            assert(i < n);
            assert(issued(prev[i], x));
            assert forall|j: int| i < j < prev.len() implies !retired(#[trigger] prev[j], x) by {
                assert(!retired(calls[j], x));
            }
            assert(!retired(calls[n], x));
        }
        if issued(c, x) {
            assert(issued(calls[n], x));
        }
        match c {
            Call::Insert { value, result } => {
                if let Ok(y) = result {
                    assert(post.ids == pre.ids.push(y));
                    if pre.contains(x) {
                        let q = pre.ids.index_of(x);
                        assert(post.ids[q] == x);
                    }
                    if post.contains(x) && x != y {
                        let q = post.ids.index_of(x);
                        assert(pre.ids[q] == x);
                    }
                    if x == y {
                        assert(post.ids[pre.ids.len() as int] == x);
                    }
                }
            },
            Call::Remove { id, outcome } => {
                if outcome is Ok {
                    let p = pre.ids.index_of(id);
                    assert(pre.ids.contains(id));
                    lemma_swap_remove_view(pre, post, id, p);
                }
            },
        }
    }
}

/// With a single record, insert, remove and insert again give two ids of
/// the same record with different generations.
pub proof fn lemma_single_record_reissue<T>(
    s0: FreelistView<T>,
    s1: FreelistView<T>,
    s2: FreelistView<T>,
    s3: FreelistView<T>,
    v1: T,
    v2: T,
    a: AllocationID,
    b: AllocationID,
)
    requires
        view_wf(s0),
        view_wf(s1),
        view_wf(s2),
        s0.capacity == 1,
        insert_spec(s0, s1, v1, Ok(a)),
        remove_spec(s1, s2, a, Ok(())),
        insert_spec(s2, s3, v2, Ok(b)),
    ensures
        slot_of(a) == slot_of(b),
        generation_of(a) != generation_of(b),
        a != b,
{
    assert(s0.free[0] < 1);
    assert(s2.free[0] < 1);
    assert(s2.records[0] == a);
    lemma_next_id(a);
}

/// Removing the same id twice: the second removal fails with `NotFound`
/// and leaves the container as the first removal left it.
pub proof fn lemma_remove_twice<T>(
    s0: FreelistView<T>,
    s1: FreelistView<T>,
    s2: FreelistView<T>,
    id: AllocationID,
    r1: Result<(), NotFound>,
    r2: Result<(), NotFound>,
)
    requires
        view_wf(s0),
        view_wf(s1),
        remove_spec(s0, s1, id, r1),
        remove_spec(s1, s2, id, r2),
    ensures
        r2 matches Err(e) && e.id == id,
        s2 == s1,
{
    if r1 is Ok {
        let p = s0.ids.index_of(id);
        assert(s0.ids.contains(id));
        lemma_swap_remove_view(s0, s1, id, p);
    }
}

} // verus!
