//! The packed freelist: values packed at the front of one vector, a table of
//! allocation records that maps handles to positions, and a FIFO queue of the
//! free records threaded through that table.

use vstd::prelude::*;

use crate::error::{AllocationError, NotFound};
use crate::ids::{bump_generation, lemma_next_id, next_id, slot_of, AllocationID, SLOT_SPAN};

verus! {

/// The largest capacity a `PackedFreelist` can be created with. Record
/// positions are 16-bit, and the all-ones value marks "no value".
pub const MAX_SIZE: usize = 65534;

/// Marks a record that owns no value.
const TOMBSTONE: u16 = 0xFFFF;

/// One record of the allocation table.
#[derive(Clone, Copy)]
struct Allocation {
    /// The id last handed out from this record. Its low half is the
    /// record's own index, its high half the record's generation.
    allocation_id: AllocationID,
    /// Position in the packed storage of the value this record owns, or
    /// `TOMBSTONE`.
    object_index: u16,
    /// The record that follows this one in the free queue.
    next_allocation: u16,
}

/// What a `PackedFreelist` holds, seen mathematically.
pub struct FreelistView<T> {
    /// The fixed number of values the container can hold.
    pub capacity: nat,
    /// The live ids in packed order: `ids[p]` is the handle of `values[p]`.
    pub ids: Seq<AllocationID>,
    /// The live values, packed at positions `0 .. ids.len()`.
    pub values: Seq<T>,
    /// For each record of the allocation table, the id it handed out last
    /// (at creation: its own index, generation 0).
    pub records: Seq<AllocationID>,
    /// The free records, in the order in which they will be reused.
    pub free: Seq<nat>,
}

impl<T> FreelistView<T> {
    /// Whether `id` refers to a live value.
    pub open spec fn contains(self, id: AllocationID) -> bool {
        self.ids.contains(id)
    }

    /// The value that a live id refers to.
    pub open spec fn value_of(self, id: AllocationID) -> T {
        self.values[self.ids.index_of(id)]
    }
}

/// A container of at most `capacity` values, stored contiguously, each
/// reachable through a stable `AllocationID`.
pub struct PackedFreelist<T> {
    /// The values, always packed at the start of the vector.
    objects: Vec<T>,
    /// For each position of `objects`, the id of the record that owns it.
    object_alloc_ids: Vec<AllocationID>,
    /// The allocation table, one record per possible live value.
    allocations: Vec<Allocation>,
    /// Tail of the free queue: a freed record is linked in after it.
    last_allocation: u16,
    /// Head of the free queue: the record the next insertion takes.
    next_allocation: u16,
    /// The free records in queue order, head first.
    free_queue: Ghost<Seq<nat>>,
}

impl<T> View for PackedFreelist<T> {
    type V = FreelistView<T>;

    closed spec fn view(&self) -> FreelistView<T> {
        FreelistView {
            capacity: self.allocations@.len(),
            ids: self.object_alloc_ids@.subrange(0, self.objects@.len() as int),
            values: self.objects@,
            records: self.allocations@.map_values(|a: Allocation| a.allocation_id),
            free: self.free_queue@,
        }
    }
}

impl<T> PackedFreelist<T> {
    /// The table, the owner map and the free queue agree, with the first
    /// `len` positions of storage taken.
    closed spec fn packed(&self, len: nat) -> bool {
        let cap = self.allocations@.len();
        let allocs = self.allocations@;
        let owners = self.object_alloc_ids@;
        let free = self.free_queue@;
        &&& cap <= MAX_SIZE
        &&& owners.len() == cap
        &&& len <= cap
        &&& forall|s: int| 0 <= s < cap ==> slot_of(#[trigger] allocs[s].allocation_id) == s
        &&& forall|s: int|
            0 <= s < cap && #[trigger] allocs[s].object_index != TOMBSTONE ==> {
                &&& allocs[s].object_index < len
                &&& owners[allocs[s].object_index as int] == allocs[s].allocation_id
            }
        &&& forall|p: int|
            0 <= p < len ==> {
                &&& slot_of(#[trigger] owners[p]) < cap
                &&& allocs[slot_of(owners[p]) as int].object_index == p
            }
        &&& free.len() + len == cap
        &&& free.no_duplicates()
        &&& forall|i: int|
            0 <= i < free.len() ==> {
                &&& #[trigger] free[i] < cap
                &&& allocs[free[i] as int].object_index == TOMBSTONE
            }
        &&& forall|s: int|
            0 <= s < cap && #[trigger] allocs[s].object_index == TOMBSTONE ==> free.contains(
                s as nat,
            )
        &&& free.len() > 0 ==> {
            &&& self.next_allocation == free[0]
            &&& self.last_allocation == free.last()
        }
        &&& forall|i: int|
            0 <= i < free.len() - 1 ==> allocs[#[trigger] free[i] as int].next_allocation == free[i
                + 1]
    }

    /// The internal invariant: the table, the owner map and the free queue
    /// agree with the packed storage.
    pub closed spec fn inv(&self) -> bool {
        self.packed(self.objects@.len())
    }

    /// The container's invariant, with what it means for the view.
    pub open spec fn wf(&self) -> bool {
        &&& self.inv()
        &&& view_wf(self@)
    }

    /// The internal invariant implies the view's.
    proof fn lemma_view_wf(&self)
        requires
            self.inv(),
        ensures
            view_wf(self@),
    {
        let v = self@;
        assert forall|p: int, q: int|
            0 <= p < v.ids.len() && 0 <= q < v.ids.len() && p != q implies v.ids[p] != v.ids[q] by {
            assert(self.object_alloc_ids@[p] == v.ids[p]);
            assert(self.object_alloc_ids@[q] == v.ids[q]);
        }
        assert forall|s: int| 0 <= s < v.capacity implies slot_of(#[trigger] v.records[s]) == s by {
            assert(slot_of(self.allocations@[s].allocation_id) == s);
        }
        assert forall|p: int| 0 <= p < v.ids.len() implies #[trigger] v.records[slot_of(v.ids[p]) as int]
            == v.ids[p] by {
            assert(self.object_alloc_ids@[p] == v.ids[p]);
        }
        assert forall|i: int, p: int|
            #![trigger v.free[i], v.ids[p]]
            0 <= i < v.free.len() && 0 <= p < v.ids.len() implies slot_of(v.ids[p]) != v.free[i] by {
            assert(self.object_alloc_ids@[p] == v.ids[p]);
        }
    }

    /// An empty container that holds at most `capacity` values.
    ///
    /// Every record starts free with generation 0, queued in index order.
    pub fn with_capacity(capacity: usize) -> (r: PackedFreelist<T>)
        requires
            capacity <= MAX_SIZE,
        ensures
            r.wf(),
            r@.capacity == capacity,
            r@.ids == Seq::<AllocationID>::empty(),
            r@.values == Seq::<T>::empty(),
            r@.records == Seq::new(capacity as nat, |s: int| s as AllocationID),
            r@.free == Seq::new(capacity as nat, |s: int| s as nat),
            forall|x: AllocationID| !r@.contains(x),
    {
        let mut allocations: Vec<Allocation> = Vec::with_capacity(capacity);
        let mut i: usize = 0;
        while i < capacity
            invariant
                i <= capacity <= MAX_SIZE,
                allocations@.len() == i,
                forall|s: int|
                    0 <= s < i ==> {
                        &&& (#[trigger] allocations@[s]).allocation_id == s
                        &&& allocations@[s].object_index == TOMBSTONE
                        &&& allocations@[s].next_allocation == if s + 1 == capacity {
                            0
                        } else {
                            s + 1
                        }
                    },
            decreases capacity - i,
        {
            let next: u16 = if i + 1 == capacity {
                0
            } else {
                (i + 1) as u16
            };
            allocations.push(
                Allocation { allocation_id: i as AllocationID, object_index: TOMBSTONE, next_allocation: next },
            );
            i = i + 1;
        }
        let last: u16 = if capacity == 0 {
            0
        } else {
            (capacity - 1) as u16
        };
        let r = PackedFreelist {
            objects: Vec::with_capacity(capacity),
            object_alloc_ids: vec![0; capacity],
            allocations,
            last_allocation: last,
            next_allocation: 0,
            free_queue: Ghost(Seq::new(capacity as nat, |s: int| s as nat)),
        };
        proof {
            let free = r.free_queue@;
            assert forall|s: int| 0 <= s < capacity implies slot_of(
                #[trigger] r.allocations@[s].allocation_id,
            ) == s by {
                assert(r.allocations@[s].allocation_id == s);
            }
            assert forall|s: int|
                0 <= s < capacity && #[trigger] r.allocations@[s].object_index
                    == TOMBSTONE implies free.contains(s as nat) by {
                assert(free[s] == s as nat);
            }
            assert(r@.ids =~= Seq::<AllocationID>::empty());
            assert(r@.records =~= Seq::new(capacity as nat, |s: int| s as AllocationID));
            r.lemma_view_wf();
        }
        r
    }

    /// Whether `id` refers to a live value. Stale, foreign and out-of-range
    /// ids give `false`.
    pub fn contains(&self, id: AllocationID) -> (r: bool)
        requires
            self.wf(),
        ensures
            r == self@.contains(id),
    {
        let s = (id % SLOT_SPAN) as usize;
        if s < self.allocations.len() {
            let a = self.allocations[s];
            let r = a.allocation_id == id && a.object_index != TOMBSTONE;
            proof {
                let v = self@;
                if r {
                    assert(v.ids[a.object_index as int] == id);
                } else if v.ids.contains(id) {
                    let p = v.ids.index_of(id);
                    assert(self.object_alloc_ids@[p] == id);
                }
            }
            r
        } else {
            proof {
                if self@.ids.contains(id) {
                    let p = self@.ids.index_of(id);
                    assert(self.object_alloc_ids@[p] == id);
                }
            }
            false
        }
    }

    /// Takes the record at the head of the free queue and binds it to the
    /// next free storage position, which the caller then fills.
    fn insert_alloc(&mut self) -> (r: Result<AllocationID, AllocationError>)
        requires
            old(self).wf(),
        ensures
            final(self).objects == old(self).objects,
            match r {
                Ok(id) => {
                    let pre = old(self)@;
                    let len = pre.ids.len();
                    &&& len < pre.capacity
                    &&& id == next_id(pre.records[pre.free[0] as int])
                    &&& final(self).packed(len + 1)
                    &&& final(self).object_alloc_ids@.subrange(0, len + 1 as int) == pre.ids.push(id)
                    &&& final(self)@.capacity == pre.capacity
                    &&& final(self)@.records == pre.records.update(pre.free[0] as int, id)
                    &&& final(self)@.free == pre.free.drop_first()
                },
                Err(e) => {
                    &&& old(self)@.ids.len() == old(self)@.capacity
                    &&& e.allocation_index == old(self)@.ids.len() + 1
                    &&& *final(self) == *old(self)
                },
            },
    {
        let len = self.objects.len();
        if len >= self.allocations.len() {
            return Err(AllocationError { allocation_index: (len + 1) as u16 });
        }
        let ghost pre = *self;
        let s = self.next_allocation as usize;
        let mut a = self.allocations[s];
        let fresh = bump_generation(a.allocation_id);
        proof {
            lemma_next_id(a.allocation_id);
        }
        self.next_allocation = a.next_allocation;
        a.allocation_id = fresh;
        a.object_index = len as u16;
        self.allocations.set(s, a);
        self.object_alloc_ids.set(len, fresh);
        self.free_queue = Ghost(pre.free_queue@.drop_first());
        proof {
            let allocs = self.allocations@;
            let owners = self.object_alloc_ids@;
            let free = self.free_queue@;
            let cap = allocs.len();
            assert(pre.free_queue@[0] == s);
            assert forall|p: int| 0 <= p < len implies slot_of(#[trigger] owners[p]) != s by {
                assert(owners[p] == pre.object_alloc_ids@[p]);
            }
            assert forall|t: int|
                0 <= t < cap && #[trigger] allocs[t].object_index == TOMBSTONE implies free.contains(
                t as nat,
            ) by {
                let j = pre.free_queue@.index_of(t as nat);
                assert(pre.free_queue@[j] == t);
                assert(j != 0);
                assert(free[j - 1] == t);
            }
            assert forall|i: int| 0 <= i < free.len() implies #[trigger] free[i] != s by {
                assert(free[i] == pre.free_queue@[i + 1]);
            }
            assert(self.object_alloc_ids@.subrange(0, len + 1) =~= pre@.ids.push(fresh));
            assert(self@.records =~= pre@.records.update(s as int, fresh));
        }
        Ok(fresh)
    }

    /// Stores `value` and returns its new id, or fails when the container
    /// is full. Constant time.
    pub fn insert(&mut self, value: T) -> (r: Result<AllocationID, AllocationError>)
        requires
            old(self).wf(),
        ensures
            final(self).wf(),
            r.is_ok() <==> old(self)@.ids.len() < old(self)@.capacity,
            insert_spec(old(self)@, final(self)@, value, r),
            r matches Ok(id) ==> {
                &&& !old(self)@.contains(id)
                &&& final(self)@.contains(id)
                &&& final(self)@.value_of(id) == value
            },
    {
        let ghost pre = *self;
        match self.insert_alloc() {
            Ok(id) => {
                self.objects.push(value);
                proof {
                    let v = self@;
                    assert(v.ids =~= pre@.ids.push(id));
                    assert(v.ids[pre@.ids.len() as int] == id);
                    self.lemma_view_wf();
                    assert(v.ids.contains(id));
                    assert(v.ids[v.ids.index_of(id)] == id);
                    if pre@.ids.contains(id) {
                        let p = pre@.ids.index_of(id);
                        let s = pre@.free[0];
                        assert(pre@.free[0] < pre@.capacity);
                        lemma_next_id(pre@.records[s as int]);
                        assert(slot_of(pre@.ids[p]) != pre@.free[0]);
                    }
                }
                Ok(id)
            },
            Err(e) => Err(e),
        }
    }

    /// Removes the value that `id` refers to, moving the last value into its
    /// position, or fails with `NotFound` when `id` is not live. Constant
    /// time; other ids keep referring to their values.
    pub fn remove(&mut self, id: AllocationID) -> (r: Result<(), NotFound>)
        requires
            old(self).wf(),
        ensures
            final(self).wf(),
            r.is_ok() <==> old(self)@.contains(id),
            remove_spec(old(self)@, final(self)@, id, r),
            !final(self)@.contains(id),
            forall|x: AllocationID|
                x != id ==> (final(self)@.contains(x) <==> old(self)@.contains(x)),
            forall|x: AllocationID|
                x != id && #[trigger] old(self)@.contains(x) ==> final(self)@.value_of(x)
                    == old(self)@.value_of(x),
    {
        if !self.contains(id) {
            return Err(NotFound { id });
        }
        let ghost pre = *self;
        let ghost pv = pre@;
        proof {
            let q = pv.ids.index_of(id);
            assert(pre.object_alloc_ids@[q] == id);
        }
        let s = (id % SLOT_SPAN) as usize;
        let p = self.allocations[s].object_index as usize;
        let len = self.objects.len();
        let last = len - 1;
        let queue_was_empty = len == self.allocations.len();
        if p != last {
            let moved = self.object_alloc_ids[last];
            self.object_alloc_ids.set(p, moved);
            let ms = (moved % SLOT_SPAN) as usize;
            let mut m = self.allocations[ms];
            m.object_index = p as u16;
            self.allocations.set(ms, m);
        }
        let _evicted = self.objects.swap_remove(p);
        let mut a = self.allocations[s];
        a.object_index = TOMBSTONE;
        self.allocations.set(s, a);
        if queue_was_empty {
            self.next_allocation = s as u16;
        } else {
            let tail = self.last_allocation as usize;
            let mut t = self.allocations[tail];
            t.next_allocation = s as u16;
            self.allocations.set(tail, t);
        }
        self.last_allocation = s as u16;
        self.free_queue = Ghost(pre.free_queue@.push(s as nat));
        proof {
            self.lemma_remove_packed(pre, id, p as int);
            self.lemma_view_wf();
            let v = self@;
            assert(v.ids =~= pv.ids.update(p as int, pv.ids.last()).drop_last());
            assert(v.records =~= pv.records);
            lemma_swap_remove_view(pv, v, id, p as int);
        }
        Ok(())
    }

    /// The invariant holds again once `remove` has finished with the table.
    proof fn lemma_remove_packed(&self, pre: Self, id: AllocationID, p: int)
        requires
            pre.wf(),
            pre@.contains(id),
            pre.object_alloc_ids@[p] == id,
            0 <= p < pre.objects@.len(),
            ({
                let len = pre.objects@.len() as int;
                let last = len - 1;
                let s = slot_of(id) as int;
                let moved = pre.object_alloc_ids@[last];
                let ms = slot_of(moved) as int;
                let allocs1 = if p != last {
                    pre.allocations@.update(
                        ms,
                        Allocation { object_index: p as u16, ..pre.allocations@[ms] },
                    )
                } else {
                    pre.allocations@
                };
                let allocs2 = allocs1.update(
                    s,
                    Allocation { object_index: TOMBSTONE, ..allocs1[s] },
                );
                let tail = pre.last_allocation as int;
                let allocs3 = if len == pre.allocations@.len() {
                    allocs2
                } else {
                    allocs2.update(tail, Allocation { next_allocation: s as u16, ..allocs2[tail] })
                };
                &&& self.objects@.len() == last
                &&& self.allocations@ == allocs3
                &&& self.object_alloc_ids@ == if p != last {
                    pre.object_alloc_ids@.update(p, moved)
                } else {
                    pre.object_alloc_ids@
                }
                &&& self.free_queue@ == pre.free_queue@.push(s as nat)
                &&& self.last_allocation == s
                &&& self.next_allocation == if len == pre.allocations@.len() {
                    s as u16
                } else {
                    pre.next_allocation
                }
            }),
        ensures
            self.inv(),
    {
        let len = pre.objects@.len() as int;
        let last = len - 1;
        let s = slot_of(id) as int;
        let moved = pre.object_alloc_ids@[last];
        let ms = slot_of(moved) as int;
        let cap = pre.allocations@.len();
        let old_allocs = pre.allocations@;
        let old_owners = pre.object_alloc_ids@;
        let old_free = pre.free_queue@;
        let allocs = self.allocations@;
        let owners = self.object_alloc_ids@;
        let free = self.free_queue@;
        assert(s < cap && old_allocs[s].object_index == p);
        assert(ms < cap && old_allocs[ms].object_index == last);
        assert(p != last ==> ms != s);
        assert forall|i: int| 0 <= i < old_free.len() implies #[trigger] old_free[i] != s
            && old_free[i] != ms by {
            assert(old_allocs[old_free[i] as int].object_index == TOMBSTONE);
        }
        assert(allocs.len() == cap);
        assert forall|t: int| 0 <= t < cap implies slot_of(#[trigger] allocs[t].allocation_id) == t by {
            assert(allocs[t].allocation_id == old_allocs[t].allocation_id);
            assert(slot_of(old_allocs[t].allocation_id) == t);
        }
        assert forall|t: int|
            0 <= t < cap && #[trigger] allocs[t].object_index != TOMBSTONE implies {
                &&& allocs[t].object_index < last
                &&& owners[allocs[t].object_index as int] == allocs[t].allocation_id
            } by {
            assert(allocs[t].allocation_id == old_allocs[t].allocation_id);
            if !(p != last && t == ms) {
                assert(t != s);
                assert(allocs[t].object_index == old_allocs[t].object_index);
                let oi = old_allocs[t].object_index as int;
                assert(old_owners[oi] == old_allocs[t].allocation_id);
                assert(slot_of(old_owners[oi]) == t);
                assert(oi != p);
                assert(oi != last);
            }
        }
        assert forall|q: int| 0 <= q < last implies {
            &&& slot_of(#[trigger] owners[q]) < cap
            &&& allocs[slot_of(owners[q]) as int].object_index == q
        } by {
            if !(p != last && q == p) {
                assert(owners[q] == old_owners[q]);
                let t = slot_of(old_owners[q]) as int;
                assert(old_allocs[t].object_index == q);
                assert(t != s);
                assert(t != ms);
            }
        }
        assert(free.no_duplicates()) by {
            assert forall|i: int, j: int| 0 <= i < free.len() && 0 <= j < free.len() && i != j implies free[i] != free[j] by {
                if i < old_free.len() && j < old_free.len() {
                    assert(free[i] == old_free[i] && free[j] == old_free[j]);
                } else if i < old_free.len() {
                    assert(free[i] == old_free[i]);
                } else if j < old_free.len() {
                    assert(free[j] == old_free[j]);
                }
            }
        }
        assert forall|i: int| 0 <= i < free.len() implies {
            &&& #[trigger] free[i] < cap
            &&& allocs[free[i] as int].object_index == TOMBSTONE
        } by {
            if i < old_free.len() {
                assert(free[i] == old_free[i]);
                assert(old_allocs[old_free[i] as int].object_index == TOMBSTONE);
            }
        }
        assert forall|t: int|
            0 <= t < cap && #[trigger] allocs[t].object_index == TOMBSTONE implies free.contains(
            t as nat,
        ) by {
            if t == s {
                assert(free[old_free.len() as int] == t);
            } else {
                assert(t != ms || p == last);
                assert(old_allocs[t].object_index == TOMBSTONE);
                let j = old_free.index_of(t as nat);
                assert(free[j] == t);
            }
        }
        assert forall|i: int| 0 <= i < free.len() - 1 implies allocs[#[trigger] free[i] as int].next_allocation
            == free[i + 1] by {
            assert(free[i] == old_free[i]);
            if i < old_free.len() - 1 {
                assert(free[i + 1] == old_free[i + 1]);
                assert(old_free[i] != old_free.last());
            }
        }
    }

    /// Storage position of a live id.
    fn position_of(&self, id: AllocationID) -> (p: usize)
        requires
            self.wf(),
            self@.contains(id),
        ensures
            p == self@.ids.index_of(id),
            p < self@.values.len(),
    {
        proof {
            let q = self@.ids.index_of(id);
            assert(self.object_alloc_ids@[q] == id);
        }
        let s = (id % SLOT_SPAN) as usize;
        self.allocations[s].object_index as usize
    }

    /// The value that `id` refers to, or `None` when `id` is not live.
    pub fn get(&self, id: AllocationID) -> (r: Option<&T>)
        requires
            self.wf(),
        ensures
            match r {
                Some(v) => self@.contains(id) && *v == self@.value_of(id),
                None => !self@.contains(id),
            },
    {
        if self.contains(id) {
            let p = self.position_of(id);
            Some(&self.objects[p])
        } else {
            None
        }
    }

    /// The value that a live `id` refers to, for callers that already know
    /// that `id` is live.
    pub fn index(&self, id: AllocationID) -> (r: &T)
        requires
            self.wf(),
            self@.contains(id),
        ensures
            *r == self@.value_of(id),
    {
        let p = self.position_of(id);
        &self.objects[p]
    }

    /// The live values, contiguous and in packed order.
    pub fn as_slice(&self) -> (r: &[T])
        requires
            self.wf(),
        ensures
            r@ == self@.values,
    {
        self.objects.as_slice()
    }

    /// The live values in packed order, without their ids.
    pub fn into_vec(self) -> (r: Vec<T>)
        requires
            self.wf(),
        ensures
            r@ == self@.values,
    {
        self.objects
    }

    /// The number of live values.
    pub fn size(&self) -> (r: usize)
        requires
            self.wf(),
        ensures
            r == self@.ids.len(),
            r == self@.values.len(),
    {
        self.objects.len()
    }

    /// The number of live values; the same as `size`.
    pub fn len(&self) -> (r: usize)
        requires
            self.wf(),
        ensures
            r == self@.ids.len(),
            r == self@.values.len(),
    {
        self.objects.len()
    }

    /// The number of values the container can hold, fixed at creation.
    pub fn capacity(&self) -> (r: usize)
        requires
            self.wf(),
        ensures
            r == self@.capacity,
    {
        self.allocations.len()
    }
}

/// The effect of `insert(value)` returning `r`, on a container seen as `pre`
/// before and `post` after: the head of the free queue is bound to a fresh
/// id, one generation past the record's last one, and the value is appended;
/// or, when the container is full, nothing changes.
pub open spec fn insert_spec<T>(
    pre: FreelistView<T>,
    post: FreelistView<T>,
    value: T,
    r: Result<AllocationID, AllocationError>,
) -> bool {
    &&& post.capacity == pre.capacity
    &&& match r {
        Ok(id) => {
            &&& pre.ids.len() < pre.capacity
            &&& id == next_id(pre.records[pre.free[0] as int])
            &&& post.ids == pre.ids.push(id)
            &&& post.values == pre.values.push(value)
            &&& post.records == pre.records.update(pre.free[0] as int, id)
            &&& post.free == pre.free.drop_first()
        },
        Err(e) => {
            &&& pre.ids.len() == pre.capacity
            &&& e.allocation_index == pre.ids.len() + 1
            &&& post == pre
        },
    }
}

/// The effect of `remove(id)` returning `r`, on a container seen as `pre`
/// before and `post` after: the last value moves into the removed one's
/// position and the record joins the tail of the free queue; or, when `id`
/// is not live, nothing changes.
pub open spec fn remove_spec<T>(
    pre: FreelistView<T>,
    post: FreelistView<T>,
    id: AllocationID,
    r: Result<(), NotFound>,
) -> bool {
    &&& post.capacity == pre.capacity
    &&& match r {
        Ok(()) => {
            let p = pre.ids.index_of(id);
            &&& pre.contains(id)
            &&& post.ids == pre.ids.update(p, pre.ids.last()).drop_last()
            &&& post.values == pre.values.update(p, pre.values.last()).drop_last()
            &&& post.records == pre.records
            &&& post.free == pre.free.push(slot_of(id))
        },
        Err(e) => {
            &&& !pre.contains(id)
            &&& e.id == id
            &&& post == pre
        },
    }
}

/// Moving the last live value into the position of `id` and dropping the
/// last position leaves every other id live, with its value.
pub proof fn lemma_swap_remove_view<T>(pv: FreelistView<T>, v: FreelistView<T>, id: AllocationID, p: int)
    requires
        view_wf(pv),
        view_wf(v),
        0 <= p < pv.ids.len(),
        pv.ids[p] == id,
        v.ids == pv.ids.update(p, pv.ids.last()).drop_last(),
        v.values == pv.values.update(p, pv.values.last()).drop_last(),
    ensures
        pv.ids.index_of(id) == p,
        !v.contains(id),
        forall|x: AllocationID| x != id ==> (v.contains(x) <==> pv.contains(x)),
        forall|x: AllocationID|
            x != id && #[trigger] pv.contains(x) ==> v.value_of(x) == pv.value_of(x),
{
    let last = pv.ids.len() - 1;
    assert(pv.ids.contains(id));
    if v.contains(id) {
        let q = v.ids.index_of(id);
        if q == p {
            assert(pv.ids[last] == id);
        } else {
            assert(pv.ids[q] == id);
        }
    }
    assert forall|x: AllocationID| x != id implies (v.contains(x) <==> pv.contains(x)) by {
        if pv.contains(x) {
            let q = pv.ids.index_of(x);
            if q == last {
                assert(v.ids[p] == x);
            } else {
                assert(v.ids[q] == x);
            }
        }
        if v.contains(x) {
            let q = v.ids.index_of(x);
            if q == p {
                assert(pv.ids[last] == x);
            } else {
                assert(pv.ids[q] == x);
            }
        }
    }
    assert forall|x: AllocationID|
        x != id && #[trigger] pv.contains(x) implies v.value_of(x) == pv.value_of(x) by {
        let q = pv.ids.index_of(x);
        if q == last {
            assert(v.ids[p] == x);
        } else {
            assert(v.ids[q] == x);
        }
        assert(v.contains(x));
    }
}

/// Gives slice access (iteration, indexing by position) to the live values.
impl<T> core::ops::Deref for PackedFreelist<T> {
    type Target = [T];

    fn deref(&self) -> (r: &[T])
        ensures
            r@ == self@.values,
    {
        self.objects.as_slice()
    }
}

/// What holds of the view of every container.
pub open spec fn view_wf<T>(v: FreelistView<T>) -> bool {
    &&& v.capacity <= MAX_SIZE
    &&& v.ids.len() == v.values.len()
    &&& v.ids.len() + v.free.len() == v.capacity
    &&& v.records.len() == v.capacity
    &&& v.ids.no_duplicates()
    &&& v.free.no_duplicates()
    &&& forall|s: int| 0 <= s < v.capacity ==> slot_of(#[trigger] v.records[s]) == s
    &&& forall|p: int| 0 <= p < v.ids.len() ==> slot_of(#[trigger] v.ids[p]) < v.capacity
    &&& forall|p: int|
        0 <= p < v.ids.len() ==> #[trigger] v.records[slot_of(v.ids[p]) as int] == v.ids[p]
    &&& forall|i: int| 0 <= i < v.free.len() ==> #[trigger] v.free[i] < v.capacity
    &&& forall|i: int, p: int|
        #![trigger v.free[i], v.ids[p]]
        0 <= i < v.free.len() && 0 <= p < v.ids.len() ==> slot_of(v.ids[p]) != v.free[i]
}

} // verus!
