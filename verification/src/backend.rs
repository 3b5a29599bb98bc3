use vstd::prelude::*;

verus! {

broadcast use vstd::arithmetic::div_mod::lemma_mod_division_less_than_divisor;

/// One storage cell of the backing store: empty or holding one item.
#[derive(Debug, PartialEq)]
pub enum Entry<T> {
    Empty,
    Item(T),
}

impl<T> Default for Entry<T> {
    fn default() -> (r: Self)
        ensures
            r == Entry::<T>::Empty,
    {
        Entry::Empty
    }
}

/// Error reported by the mutating store operations when the slot index lies
/// outside the store.
#[derive(Debug, PartialEq, Eq)]
pub struct BackendError;

/// Fixed-capacity store of slots. The shift and resize operations treat the
/// store as circular: positions are taken modulo the capacity, so a window of
/// occupied slots may cross the physical end of the store.
#[derive(Debug)]
pub struct Array<T> {
    items: Vec<Entry<T>>,
    length: usize,
}

impl<T> View for Array<T> {
    type V = Seq<Entry<T>>;

    closed spec fn view(&self) -> Seq<Entry<T>> {
        self.items@
    }
}

/// Two positions less than one capacity apart never share a physical slot.
pub(crate) proof fn lemma_window_distinct(a: int, b: int, l: int)
    requires
        l >= 1,
        0 <= a < b,
        b - a < l,
    ensures
        a % l != b % l,
{
    vstd::arithmetic::div_mod::lemma_fundamental_div_mod(a, l);
    vstd::arithmetic::div_mod::lemma_fundamental_div_mod(b, l);
    if a % l == b % l {
        assert(b - a == l * ((b / l) - (a / l))) by (nonlinear_arith)
            requires
                a == l * (a / l) + a % l,
                b == l * (b / l) + b % l,
                a % l == b % l,
        ;
        assert(false) by (nonlinear_arith)
            requires
                b - a == l * ((b / l) - (a / l)),
                0 < b - a < l,
        ;
    }
}

/// Stepping one full capacity forward returns to the same physical slot.
pub(crate) proof fn lemma_wrap_around(a: int, l: int)
    requires
        l >= 1,
        0 <= a,
    ensures
        (a + l) % l == a % l,
{
    vstd::arithmetic::div_mod::lemma_mod_add_multiples_vanish(a, l);
}

/// Reducing the window origin modulo the capacity leaves every position of
/// the window in the same physical slot.
pub(crate) proof fn lemma_mod_base_reduce(a: int, i: int, l: int)
    requires
        l >= 1,
        0 <= a,
        0 <= i < l,
    ensures
        ((a % l) + i) % l == (a + i) % l,
{
    vstd::arithmetic::div_mod::lemma_add_mod_noop(a, i, l);
    lemma_no_wrap(i, l);
}

/// A position inside the store is its own physical slot.
pub(crate) proof fn lemma_no_wrap(a: int, l: int)
    requires
        0 <= a < l,
    ensures
        a % l == a,
{
    vstd::arithmetic::div_mod::lemma_small_mod(a as nat, l as nat);
}

impl<T> Array<T> {
    /// The stored slot vector always matches the recorded capacity.
    pub closed spec fn wf(&self) -> bool {
        self.items@.len() == self.length
    }

    /// A store of `length` empty slots.
    pub fn new(length: usize) -> (a: Array<T>)
        ensures
            a.wf(),
            a@.len() == length,
            forall|i: int| 0 <= i < length ==> a@[i] is Empty,
    {
        Array { items: Self::new_items(length), length }
    }

    fn new_items(length: usize) -> (items: Vec<Entry<T>>)
        ensures
            items@.len() == length,
            forall|i: int| 0 <= i < length ==> items@[i] is Empty,
    {
        let mut items: Vec<Entry<T>> = Vec::new();
        let mut count: usize = 0;
        while count < length
            invariant
                count <= length,
                items@.len() == count,
                forall|i: int| 0 <= i < count ==> items@[i] is Empty,
            decreases length - count,
        {
            items.push(Entry::default());
            count += 1;
        }
        items
    }

    /// The capacity of the store.
    pub fn len(&self) -> (n: usize)
        requires
            self.wf(),
        ensures
            n == self@.len(),
    {
        self.length
    }

    /// The slot at `index`, or absent if `index` is outside the store.
    pub fn get(&self, index: usize) -> (r: Option<&Entry<T>>)
        requires
            self.wf(),
        ensures
            index < self@.len() ==> (r matches Some(entry) && *entry == self@[index as int]),
            index >= self@.len() ==> r is None,
    {
        if index < self.items.len() {
            Some(&self.items[index])
        } else {
            None
        }
    }

    /// Swaps an empty slot in at `index` and returns the prior slot, or
    /// absent if `index` is outside the store.
    pub fn remove(&mut self, index: usize) -> (r: Option<Entry<T>>)
        requires
            old(self).wf(),
        ensures
            final(self).wf(),
            index < old(self)@.len() ==> (r matches Some(entry) && entry == old(self)@[index as int]
                && final(self)@ == old(self)@.update(index as int, Entry::Empty)),
            index >= old(self)@.len() ==> r is None && *final(self) == *old(self),
    {
        if index < self.length {
            let mut entry: Entry<T> = Entry::default();
            self.items.set_and_swap(index, &mut entry);
            Some(entry)
        } else {
            None
        }
    }

    /// Writes an occupied slot at `index`; fails if `index` is outside the store.
    pub fn set(&mut self, index: usize, item: T) -> (r: Result<(), BackendError>)
        requires
            old(self).wf(),
        ensures
            final(self).wf(),
            index < old(self)@.len() ==> r is Ok && final(self)@ == old(self)@.update(
                index as int,
                Entry::Item(item),
            ),
            index >= old(self)@.len() ==> r is Err && *final(self) == *old(self),
    {
        if index < self.length {
            self.items.set(index, Entry::Item(item));
            Ok(())
        } else {
            Err(BackendError)
        }
    }

    /// Exchanges the contents of two slots.
    fn swap_slots(&mut self, a: usize, b: usize)
        requires
            old(self).wf(),
            a < old(self)@.len(),
            b < old(self)@.len(),
            a != b,
        ensures
            final(self).wf(),
            final(self)@.len() == old(self)@.len(),
            final(self)@[a as int] == old(self)@[b as int],
            final(self)@[b as int] == old(self)@[a as int],
            forall|j: int|
                0 <= j < old(self)@.len() && j != a && j != b ==> final(self)@[j] == old(self)@[j],
    {
        let mut entry: Entry<T> = Entry::default();
        self.items.set_and_swap(a, &mut entry);
        self.items.set_and_swap(b, &mut entry);
        self.items.set_and_swap(a, &mut entry);
    }

    /// Rotates the circular range of positions `[from, to]` one step toward
    /// `to`: each slot in the range moves to the next higher position, while
    /// the slot at position `to` wraps back to position `from`. Positions are
    /// taken modulo the capacity, so the range may cross the physical end of
    /// the store. When the range stays inside the store, the effect is also
    /// stated without the modulus.
    pub fn shift_right(&mut self, from: usize, to: usize)
        requires
            old(self).wf(),
            old(self)@.len() >= 1,
            from <= to,
            to - from < old(self)@.len(),
        ensures
            final(self).wf(),
            final(self)@.len() == old(self)@.len(),
            final(self)@[(from as int) % (old(self)@.len() as int)] == old(self)@[(to as int) % (
            old(self)@.len() as int)],
            forall|k: int|
                from < k <= to ==> #[trigger] final(self)@[k % (old(self)@.len() as int)] == old(
                    self,
                )@[(k - 1) % (old(self)@.len() as int)],
            forall|k: int|
                to < k < from + old(self)@.len() ==> #[trigger] final(self)@[k % (old(
                    self,
                )@.len() as int)] == old(self)@[k % (old(self)@.len() as int)],
            to < old(self)@.len() ==> final(self)@[from as int] == old(self)@[to as int],
            to < old(self)@.len() ==> forall|k: int|
                from < k <= to ==> final(self)@[k] == old(self)@[k - 1],
            to < old(self)@.len() ==> forall|k: int|
                0 <= k < old(self)@.len() && !(from <= k <= to) ==> final(self)@[k] == old(
                    self,
                )@[k],
    {
        let ghost orig = self@;
        let ghost l = self@.len() as int;
        let len: usize = self.items.len();
        let mut target_index: usize = to;
        while target_index > from
            invariant
                self.wf(),
                self@.len() == orig.len(),
                l == orig.len(),
                l >= 1,
                len == orig.len(),
                from <= target_index <= to,
                to - from < l,
                self@[(target_index as int) % l] == orig[(to as int) % l],
                forall|k: int|
                    target_index < k <= to ==> #[trigger] self@[k % l] == orig[(k - 1) % l],
                forall|k: int| from <= k < target_index ==> #[trigger] self@[k % l] == orig[k % l],
                forall|k: int| to < k < from + l ==> #[trigger] self@[k % l] == orig[k % l],
            decreases target_index - from,
        {
            let ghost pre = self@;
            let ghost t = target_index as int;
            let source: usize = (target_index - 1) % len;
            let destination: usize = target_index % len;
            proof {
                lemma_window_distinct(t - 1, t, l);
            }
            self.swap_slots(source, destination);
            proof {
                assert forall|k: int| t < k <= to implies #[trigger] self@[k % l] == orig[(k - 1) % l] by {
                    lemma_window_distinct(t - 1, k, l);
                    lemma_window_distinct(t, k, l);
                }
                assert forall|k: int| from <= k < t - 1 implies #[trigger] self@[k % l] == orig[k % l] by {
                    lemma_window_distinct(k, t - 1, l);
                    lemma_window_distinct(k, t, l);
                }
                assert forall|k: int| to < k < from + l implies #[trigger] self@[k % l] == orig[k % l] by {
                    lemma_window_distinct(t - 1, k, l);
                    lemma_window_distinct(t, k, l);
                }
            }
            target_index -= 1;
        }
        proof {
            if to < orig.len() {
                lemma_no_wrap(from as int, l);
                lemma_no_wrap(to as int, l);
                assert forall|k: int| from < k <= to implies self@[k] == orig[k - 1] by {
                    lemma_no_wrap(k, l);
                    lemma_no_wrap(k - 1, l);
                    assert(self@[k % l] == orig[(k - 1) % l]);
                }
                assert forall|k: int|
                    0 <= k < orig.len() && !(from <= k <= to) implies self@[k] == orig[k] by {
                    lemma_no_wrap(k, l);
                    if k < from {
                        lemma_wrap_around(k, l);
                        assert(to < k + l < from + l);
                        assert(self@[(k + l) % l] == orig[(k + l) % l]);
                    } else {
                        assert(self@[k % l] == orig[k % l]);
                    }
                }
            }
        }
    }

    /// Rotates the circular range of positions `[from, to]` one step toward
    /// `from`: each slot in the range moves to the next lower position, while
    /// the slot at position `from` wraps forward to position `to`. Positions
    /// are taken modulo the capacity, as in `shift_right`.
    pub fn shift_left(&mut self, from: usize, to: usize)
        requires
            old(self).wf(),
            old(self)@.len() >= 1,
            from <= to,
            to - from < old(self)@.len(),
        ensures
            final(self).wf(),
            final(self)@.len() == old(self)@.len(),
            final(self)@[(to as int) % (old(self)@.len() as int)] == old(self)@[(from as int) % (
            old(self)@.len() as int)],
            forall|k: int|
                from <= k < to ==> #[trigger] final(self)@[k % (old(self)@.len() as int)] == old(
                    self,
                )@[(k + 1) % (old(self)@.len() as int)],
            forall|k: int|
                to < k < from + old(self)@.len() ==> #[trigger] final(self)@[k % (old(
                    self,
                )@.len() as int)] == old(self)@[k % (old(self)@.len() as int)],
            to < old(self)@.len() ==> final(self)@[to as int] == old(self)@[from as int],
            to < old(self)@.len() ==> forall|k: int|
                from <= k < to ==> final(self)@[k] == old(self)@[k + 1],
            to < old(self)@.len() ==> forall|k: int|
                0 <= k < old(self)@.len() && !(from <= k <= to) ==> final(self)@[k] == old(
                    self,
                )@[k],
    {
        let ghost orig = self@;
        let ghost l = self@.len() as int;
        let len: usize = self.items.len();
        let mut target_index: usize = from;
        while target_index < to
            invariant
                self.wf(),
                self@.len() == orig.len(),
                l == orig.len(),
                l >= 1,
                len == orig.len(),
                from <= target_index <= to,
                to - from < l,
                self@[(target_index as int) % l] == orig[(from as int) % l],
                forall|k: int|
                    from <= k < target_index ==> #[trigger] self@[k % l] == orig[(k + 1) % l],
                forall|k: int|
                    target_index < k < from + l ==> #[trigger] self@[k % l] == orig[k % l],
            decreases to - target_index,
        {
            let ghost t = target_index as int;
            let source: usize = (target_index + 1) % len;
            let destination: usize = target_index % len;
            proof {
                lemma_window_distinct(t, t + 1, l);
            }
            self.swap_slots(destination, source);
            proof {
                assert forall|k: int| from <= k < t implies #[trigger] self@[k % l] == orig[(k + 1) % l] by {
                    lemma_window_distinct(k, t, l);
                    lemma_window_distinct(k, t + 1, l);
                }
                assert forall|k: int| t + 1 < k < from + l implies #[trigger] self@[k % l] == orig[k % l] by {
                    lemma_window_distinct(t, k, l);
                    lemma_window_distinct(t + 1, k, l);
                }
            }
            target_index += 1;
        }
        proof {
            if to < orig.len() {
                lemma_no_wrap(from as int, l);
                lemma_no_wrap(to as int, l);
                assert forall|k: int| from <= k < to implies self@[k] == orig[k + 1] by {
                    lemma_no_wrap(k, l);
                    lemma_no_wrap(k + 1, l);
                    assert(self@[k % l] == orig[(k + 1) % l]);
                }
                assert forall|k: int|
                    0 <= k < orig.len() && !(from <= k <= to) implies self@[k] == orig[k] by {
                    lemma_no_wrap(k, l);
                    if k < from {
                        lemma_wrap_around(k, l);
                        assert(to < k + l < from + l);
                        assert(self@[(k + l) % l] == orig[(k + l) % l]);
                    } else {
                        assert(self@[k % l] == orig[k % l]);
                    }
                }
            }
        }
    }

    /// Replaces the store by a fresh one of `new_size` empty slots, after
    /// moving `copy_length` logically contiguous slots, starting at position
    /// `start_at` and wrapping past the physical end, into positions
    /// `[0, copy_length)` of the fresh store.
    pub fn resize(&mut self, new_size: usize, start_at: usize, copy_length: usize)
        requires
            old(self).wf(),
            old(self)@.len() >= 1,
            copy_length <= old(self)@.len(),
            copy_length <= new_size,
            start_at + copy_length <= usize::MAX,
        ensures
            final(self).wf(),
            final(self)@.len() == new_size,
            forall|j: int|
                0 <= j < copy_length ==> #[trigger] final(self)@[j] == old(self)@[(start_at + j) % (
                old(self)@.len() as int)],
            forall|j: int| copy_length <= j < new_size ==> final(self)@[j] is Empty,
    {
        let ghost orig = self@;
        let ghost l = self@.len() as int;
        let mut new_items = Self::new_items(new_size);
        let mut count: usize = 0;
        while count < copy_length
            invariant
                self.wf(),
                self@.len() == orig.len(),
                l == orig.len(),
                l >= 1,
                count <= copy_length,
                copy_length <= orig.len(),
                copy_length <= new_size,
                start_at + copy_length <= usize::MAX,
                new_items@.len() == new_size,
                forall|j: int| 0 <= j < count ==> #[trigger] new_items@[j] == orig[(start_at + j) % l],
                forall|j: int| count <= j < new_size ==> new_items@[j] is Empty,
                forall|j: int|
                    count <= j < copy_length ==> #[trigger] self@[(start_at + j) % l] == orig[(
                    start_at + j) % l],
            decreases copy_length - count,
        {
            let ghost c = count as int;
            let target_index: usize = (start_at + count) % self.items.len();
            let mut entry: Entry<T> = Entry::default();
            self.items.set_and_swap(target_index, &mut entry);
            new_items.set(count, entry);
            proof {
                assert forall|j: int|
                    c + 1 <= j < copy_length implies #[trigger] self@[(start_at + j) % l] == orig[(
                    start_at + j) % l] by {
                    lemma_window_distinct(start_at + c, start_at + j, l);
                }
            }
            count += 1;
        }
        self.items = new_items;
        self.length = new_size;
    }
}

} // verus!
