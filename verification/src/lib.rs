use vstd::prelude::*;

pub mod array_deque;
pub mod array_queue;
pub mod array_stack;
pub mod backend;

verus! {

/// Error reported by the mutating list operations when the index argument
/// lies outside the valid logical range.
#[derive(Debug, PartialEq, Eq)]
pub struct CollectionError;

impl CollectionError {
    /// A short description of the error.
    pub fn message(&self) -> (r: &'static str)
        ensures
            r@ == "out of bound"@,
    {
        "out of bound"
    }
}

/// Capacity of the backing store after growing: doubled.
pub open spec fn grown_capacity(cap: nat) -> nat {
    2 * cap
}

/// Capacity of the backing store after shrinking: halved, but never below one slot.
pub open spec fn shrunk_capacity(cap: nat) -> nat {
    if cap / 2 >= 1 {
        cap / 2
    } else {
        1
    }
}

/// An insert must grow the backing store exactly when the store is full.
pub open spec fn grow_required(size: nat, cap: nat) -> bool {
    size == cap
}

/// A removal must shrink the backing store exactly when less than a third
/// of it remains occupied.
pub open spec fn shrink_required(size: nat, cap: nat) -> bool {
    size * 3 < cap
}

/// Capacity of the backing store after an insert into a container that held
/// `size` items in `cap` slots.
pub open spec fn capacity_after_add(size: nat, cap: nat) -> nat {
    if grow_required(size, cap) {
        grown_capacity(cap)
    } else {
        cap
    }
}

/// Capacity of the backing store after a removal that left `new_size` items
/// in a store of `cap` slots.
pub open spec fn capacity_after_remove(new_size: nat, cap: nat) -> nat {
    if shrink_required(new_size, cap) {
        shrunk_capacity(cap)
    } else {
        cap
    }
}

/// The shrink policy never drops the capacity below a single slot.
pub proof fn lemma_shrunk_capacity_at_least_one(cap: nat)
    ensures
        shrunk_capacity(cap) >= 1,
{
}

/// The items yielded by removing at the logical end `n` times in a row,
/// in the order they come out.
pub open spec fn popped_items<T>(s: Seq<T>, n: nat) -> Seq<T>
    decreases n,
{
    if n == 0 || s.len() == 0 {
        Seq::empty()
    } else {
        seq![s.last()] + popped_items(s.drop_last(), (n - 1) as nat)
    }
}

/// The contents left behind by removing at the logical end `n` times in a row.
pub open spec fn remaining_after_pops<T>(s: Seq<T>, n: nat) -> Seq<T>
    decreases n,
{
    if n == 0 || s.len() == 0 {
        s
    } else {
        remaining_after_pops(s.drop_last(), (n - 1) as nat)
    }
}

/// The items yielded by removing at the logical front `n` times in a row,
/// in the order they come out.
pub open spec fn dequeued_items<T>(s: Seq<T>, n: nat) -> Seq<T>
    decreases n,
{
    if n == 0 || s.len() == 0 {
        Seq::empty()
    } else {
        seq![s.first()] + dequeued_items(s.drop_first(), (n - 1) as nat)
    }
}

/// The contents left behind by removing at the logical front `n` times in a row.
pub open spec fn remaining_after_dequeues<T>(s: Seq<T>, n: nat) -> Seq<T>
    decreases n,
{
    if n == 0 || s.len() == 0 {
        s
    } else {
        remaining_after_dequeues(s.drop_first(), (n - 1) as nat)
    }
}

/// Last-in first-out round trip. Appending the items of `xs` in order leaves
/// the contents `xs` (by the contract of `push` and `add_last`); removing at
/// the end that many times then yields exactly the items of `xs`, newest
/// first, and leaves the container empty.
pub proof fn lemma_lifo_round_trip<T>(xs: Seq<T>)
    ensures
        popped_items(xs, xs.len()) == xs.reverse(),
        remaining_after_pops(xs, xs.len()) == Seq::<T>::empty(),
    decreases xs.len(),
{
    if xs.len() == 0 {
        assert(popped_items(xs, 0) =~= xs.reverse());
        assert(xs =~= Seq::<T>::empty());
    } else {
        lemma_lifo_round_trip(xs.drop_last());
        assert(popped_items(xs, xs.len()) =~= xs.reverse());
    }
}

/// First-in first-out round trip. Appending the items of `xs` in order leaves
/// the contents `xs` (by the contract of `enqueue`); removing at the front
/// that many times then yields exactly the items of `xs`, oldest first, and
/// leaves the container empty.
pub proof fn lemma_fifo_round_trip<T>(xs: Seq<T>)
    ensures
        dequeued_items(xs, xs.len()) == xs,
        remaining_after_dequeues(xs, xs.len()) == Seq::<T>::empty(),
    decreases xs.len(),
{
    if xs.len() == 0 {
        assert(dequeued_items(xs, 0) =~= xs);
        assert(xs =~= Seq::<T>::empty());
    } else {
        lemma_fifo_round_trip(xs.drop_first());
        assert(dequeued_items(xs, xs.len()) =~= xs);
    }
}

/// A size-tracked sequence with bounded random access, backed by a store of
/// `capacity` physical slots that grows and shrinks by the shared policy.
pub trait List<T>: View<V = Seq<T>> + Sized {
    /// Number of physical slots in the backing store.
    spec fn capacity(&self) -> nat;

    /// The container's internal well-formedness condition.
    spec fn inv(&self) -> bool;

    /// A well-formed container never holds more items than it has slots,
    /// and always owns at least one slot.
    proof fn inv_properties(&self)
        requires
            self.inv(),
        ensures
            self@.len() <= self.capacity(),
            1 <= self.capacity(),
            self.capacity() <= usize::MAX / 4,
    ;

    /// Current number of logically present items.
    fn size(&self) -> (n: usize)
        requires
            self.inv(),
        ensures
            n == self@.len(),
    ;

    /// The item at logical index `index`, or absent if the index is out of range.
    fn get(&self, index: usize) -> (r: Option<&T>)
        requires
            self.inv(),
        ensures
            index < self@.len() ==> (r matches Some(item) && *item == self@[index as int]),
            index >= self@.len() ==> r is None,
    ;

    /// Overwrites the item at logical index `index`; fails when the index is
    /// out of range. Never resizes the backing store.
    fn set(&mut self, index: usize, item: T) -> (r: Result<(), CollectionError>)
        requires
            old(self).inv(),
        ensures
            final(self).inv(),
            final(self).capacity() == old(self).capacity(),
            index < old(self)@.len() ==> r is Ok && final(self)@ == old(self)@.update(
                index as int,
                item,
            ),
            index >= old(self)@.len() ==> r is Err && *final(self) == *old(self),
    ;

    /// Inserts an item at logical index `index`, shifting the items after it;
    /// fails when `index` exceeds the current size. Grows the backing store
    /// first when it is full.
    fn add(&mut self, index: usize, item: T) -> (r: Result<(), CollectionError>)
        requires
            old(self).inv(),
            old(self).capacity() <= usize::MAX / 8,
        ensures
            final(self).inv(),
            index <= old(self)@.len() ==> r is Ok && final(self)@ == old(self)@.insert(
                index as int,
                item,
            ) && final(self).capacity() == capacity_after_add(
                old(self)@.len(),
                old(self).capacity(),
            ),
            index > old(self)@.len() ==> r is Err && *final(self) == *old(self),
    ;

    /// Deletes and returns the item at logical index `index`, closing the gap;
    /// absent when the index is out of range. Shrinks the backing store
    /// afterwards when too little of it remains occupied.
    fn remove(&mut self, index: usize) -> (r: Option<T>)
        requires
            old(self).inv(),
        ensures
            final(self).inv(),
            index < old(self)@.len() ==> (r matches Some(item) && item == old(self)@[index as int]
                && final(self)@ == old(self)@.remove(index as int) && final(self).capacity()
                == capacity_after_remove((old(self)@.len() - 1) as nat, old(self).capacity())),
            index >= old(self)@.len() ==> r is None && *final(self) == *old(self),
    ;
}

/// Last-in first-out access on top of the list contract.
pub trait Stack<T>: List<T> {
    /// Appends an item at the logical end.
    fn push(&mut self, x: T)
        requires
            old(self).inv(),
            old(self).capacity() <= usize::MAX / 8,
        ensures
            final(self).inv(),
            final(self)@ == old(self)@.push(x),
            final(self).capacity() == capacity_after_add(old(self)@.len(), old(self).capacity()),
    ;

    /// Removes and returns the item at the logical end, or absent when empty.
    fn pop(&mut self) -> (r: Option<T>)
        requires
            old(self).inv(),
        ensures
            final(self).inv(),
            old(self)@.len() > 0 ==> (r matches Some(x) && x == old(self)@.last() && final(self)@
                == old(self)@.drop_last() && final(self).capacity() == capacity_after_remove(
                (old(self)@.len() - 1) as nat, old(self).capacity())),
            old(self)@.len() == 0 ==> r is None && *final(self) == *old(self),
    ;
}

/// First-in first-out access on top of the list contract.
pub trait Queue<T>: List<T> {
    /// Appends an item at the logical end.
    fn enqueue(&mut self, x: T)
        requires
            old(self).inv(),
            old(self).capacity() <= usize::MAX / 8,
        ensures
            final(self).inv(),
            final(self)@ == old(self)@.push(x),
            final(self).capacity() == capacity_after_add(old(self)@.len(), old(self).capacity()),
    ;

    /// Removes and returns the item at the logical front, or absent when empty.
    fn dequeue(&mut self) -> (r: Option<T>)
        requires
            old(self).inv(),
        ensures
            final(self).inv(),
            old(self)@.len() > 0 ==> (r matches Some(x) && x == old(self)@.first() && final(self)@
                == old(self)@.drop_first() && final(self).capacity() == capacity_after_remove(
                (old(self)@.len() - 1) as nat, old(self).capacity())),
            old(self)@.len() == 0 ==> r is None && *final(self) == *old(self),
    ;
}

/// Insertion and removal at both logical ends on top of the list contract.
pub trait Deque<T>: List<T> {
    /// Inserts an item at the logical front.
    fn add_first(&mut self, x: T)
        requires
            old(self).inv(),
            old(self).capacity() <= usize::MAX / 8,
        ensures
            final(self).inv(),
            final(self)@ == old(self)@.insert(0, x),
            final(self).capacity() == capacity_after_add(old(self)@.len(), old(self).capacity()),
    ;

    /// Appends an item at the logical end.
    fn add_last(&mut self, x: T)
        requires
            old(self).inv(),
            old(self).capacity() <= usize::MAX / 8,
        ensures
            final(self).inv(),
            final(self)@ == old(self)@.push(x),
            final(self).capacity() == capacity_after_add(old(self)@.len(), old(self).capacity()),
    ;

    /// Removes and returns the item at the logical front, or absent when empty.
    fn remove_first(&mut self) -> (r: Option<T>)
        requires
            old(self).inv(),
        ensures
            final(self).inv(),
            old(self)@.len() > 0 ==> (r matches Some(x) && x == old(self)@.first() && final(self)@
                == old(self)@.drop_first() && final(self).capacity() == capacity_after_remove(
                (old(self)@.len() - 1) as nat, old(self).capacity())),
            old(self)@.len() == 0 ==> r is None && *final(self) == *old(self),
    ;

    /// Removes and returns the item at the logical end, or absent when empty.
    fn remove_last(&mut self) -> (r: Option<T>)
        requires
            old(self).inv(),
        ensures
            final(self).inv(),
            old(self)@.len() > 0 ==> (r matches Some(x) && x == old(self)@.last() && final(self)@
                == old(self)@.drop_last() && final(self).capacity() == capacity_after_remove(
                (old(self)@.len() - 1) as nat, old(self).capacity())),
            old(self)@.len() == 0 ==> r is None && *final(self) == *old(self),
    ;
}

/// An unordered set of unique items, looked up by equality. Declared as part
/// of the shared collection interface; no array-backed implementation exists.
pub trait USet<T> {
    fn size(&self) -> usize;

    fn add(&mut self, item: T) -> bool;

    fn remove(&mut self, item: T) -> Option<T>;

    fn find(&self, item: &T) -> Option<&T>;
}

/// A sorted set of unique items, looked up by order. Declared as part of the
/// shared collection interface; no array-backed implementation exists.
pub trait SSet<T> {
    fn size(&self) -> usize;

    fn add(&mut self, item: T) -> bool;

    fn remove(&mut self, item: T) -> Option<T>;

    fn find(&self, item: &T) -> Option<&T>;
}

} // verus!
