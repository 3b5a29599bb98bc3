use crate::backend::lemma_mod_base_reduce;
use crate::backend::lemma_no_wrap;
use crate::backend::lemma_window_distinct;
use crate::backend::lemma_wrap_around;
use crate::backend::Array;
use crate::backend::Entry;
use crate::grow_required;
use crate::grown_capacity;
use crate::shrink_required;
use crate::shrunk_capacity;
use crate::CollectionError;
use crate::Deque;
use crate::List;
use vstd::pervasive::unreached;
use vstd::prelude::*;

verus! {

broadcast use vstd::arithmetic::div_mod::lemma_mod_division_less_than_divisor;

const DEFAULT_BACKEND_SIZE: usize = 2;

const SIZE_UP_MULTIPLIER_NUMBER: usize = 2;

const SIZE_DOWN_THRESHOLD: usize = 3;

const SIZE_DOWN_DIVISION_NUMBER: usize = 2;

/// A double-ended queue over a slot store. A circular offset records the
/// physical slot of the logical front, and every interior insert or removal
/// shifts whichever half of the window is cheaper to move.
#[derive(Debug)]
pub struct ArrayDeque<T> {
    backend: Array<T>,
    size: usize,
    index: usize,
}

impl<T> View for ArrayDeque<T> {
    type V = Seq<T>;

    closed spec fn view(&self) -> Seq<T> {
        Seq::new(
            self.size as nat,
            |i: int| self.backend@[(self.index + i) % (self.backend@.len() as int)]->Item_0,
        )
    }
}

impl<T> ArrayDeque<T> {
    /// An empty deque with the default starting capacity.
    pub fn new() -> (q: ArrayDeque<T>)
        ensures
            q.inv(),
            q@ == Seq::<T>::empty(),
            q.capacity() == 2,
    {
        let q = ArrayDeque { backend: Array::new(DEFAULT_BACKEND_SIZE), size: 0, index: 0 };
        proof {
            assert forall|i: int| 0 <= i < q.backend@.len() implies #[trigger] q.backend@[(q.index
                + i) % (q.backend@.len() as int)] is Empty by {
                lemma_no_wrap(i, q.backend@.len() as int);
            }
            assert(q@ =~= Seq::<T>::empty());
        }
        q
    }

    /// Current capacity of the backing store.
    pub fn backend_len(&self) -> (n: usize)
        requires
            self.inv(),
        ensures
            n == self.capacity(),
    {
        self.backend.len()
    }

    /// The physical slot holding logical index `index`.
    fn backend_index(&self, index: usize) -> (r: usize)
        requires
            self.backend.wf(),
            1 <= self.backend@.len() <= usize::MAX / 4,
            self.index < self.backend@.len(),
            index <= self.backend@.len(),
        ensures
            r == (self.index + index) % (self.backend@.len() as int),
            r < self.backend@.len(),
    {
        let length: usize = self.backend.len();
        (index + self.index) % length
    }

    /// The pure policy decision: an operation at `index` moves the front half
    /// of the window exactly when `index` lies below half the size.
    pub fn is_first_half(&self, index: usize) -> (b: bool)
        requires
            self.inv(),
        ensures
            b == (index < self@.len() / 2),
    {
        index < self.size / 2
    }
}

impl<T> List<T> for ArrayDeque<T> {
    closed spec fn capacity(&self) -> nat {
        self.backend@.len()
    }

    closed spec fn inv(&self) -> bool {
        &&& self.backend.wf()
        &&& 1 <= self.backend@.len() <= usize::MAX / 4
        &&& self.size <= self.backend@.len()
        &&& self.index < self.backend@.len()
        &&& forall|i: int|
            0 <= i < self.size ==> #[trigger] self.backend@[(self.index + i) % (
            self.backend@.len() as int)] is Item
        &&& forall|i: int|
            self.size <= i < self.backend@.len() ==> #[trigger] self.backend@[(self.index + i) % (
            self.backend@.len() as int)] is Empty
    }

    proof fn inv_properties(&self) {
    }

    fn size(&self) -> (n: usize) {
        self.size
    }

    fn get(&self, index: usize) -> (r: Option<&T>) {
        if index >= self.size {
            return None;
        }
        let slot: usize = self.backend_index(index);
        match self.backend.get(slot) {
            Some(entry) => match entry {
                Entry::Item(item) => Some(item),
                Entry::Empty => unreached(),
            },
            None => unreached(),
        }
    }

    fn set(&mut self, index: usize, item: T) -> (r: Result<(), CollectionError>) {
        if index >= self.size {
            return Err(CollectionError);
        }
        let ghost l = self.backend@.len() as int;
        let ghost base = self.index as int;
        let slot: usize = self.backend_index(index);
        match self.backend.set(slot, item) {
            Ok(()) => {
                proof {
                    assert forall|k: int| 0 <= k < l && k != index implies #[trigger] self.backend@[
                        (base + k) % l] == old(self).backend@[(base + k) % l] by {
                        if k < index {
                            lemma_window_distinct(base + k, base + index, l);
                        } else {
                            lemma_window_distinct(base + index, base + k, l);
                        }
                    }
                    assert forall|i: int| 0 <= i < self@.len() implies self@[i] == old(
                        self,
                    )@.update(index as int, item)[i] by {
                        if i != index {
                            assert(old(self)@[i] == old(self).backend@[(base + i) % l]->Item_0);
                        }
                    }
                    assert(self@ =~= old(self)@.update(index as int, item));
                }
                Ok(())
            },
            Err(_) => unreached(),
        }
    }

    #[verifier::rlimit(80)]
    fn add(&mut self, index: usize, item: T) -> (r: Result<(), CollectionError>) {
        if index > self.size {
            return Err(CollectionError);
        }
        if self.is_size_up_required() {
            self.size_up();
        }
        let ghost mid = *self;
        let ghost l = self.backend@.len() as int;
        let ghost base = self.index as int;
        let first_half = self.is_first_half(index);
        if first_half {
            let last: usize = self.backend.len() - 1;
            self.shift_left(last, index + last);
            self.index = self.backend_index(last);
        } else {
            self.shift_right(index, self.size);
        }
        let ghost shifted = *self;
        let ghost nbase = self.index as int;
        self.size = self.size + 1;
        let slot: usize = self.backend_index(index);
        match self.backend.set(slot, item) {
            Ok(()) => {
                proof {
                    if first_half {
                        assert(nbase == (base + (l - 1)) % l);
                        assert forall|k: int|
                            0 <= k < l implies ((k < index ==> #[trigger] self.backend@[(nbase + k)
                                % l] == mid.backend@[(base + k) % l]) && (k == index
                                ==> self.backend@[(nbase + k) % l] == Entry::Item(item)) && (index
                                < k ==> self.backend@[(nbase + k) % l] == mid.backend@[(base + k
                                - 1) % l])) by {
                            lemma_mod_base_reduce(base + l - 1, k, l);
                            if k != index {
                                if k < index {
                                    lemma_window_distinct(nbase + k, nbase + index, l);
                                } else {
                                    lemma_window_distinct(nbase + index, nbase + k, l);
                                }
                            }
                            if k < index {
                                assert(shifted.backend@[(base + (l - 1 + k)) % l]
                                    == mid.backend@[(base + (l - 1 + k + 1)) % l]);
                                lemma_wrap_around(base + k, l);
                            } else if k > index {
                                assert(shifted.backend@[(base + (l - 1 + k)) % l]
                                    == mid.backend@[(base + (l - 1 + k)) % l]);
                                lemma_wrap_around(base + k - 1, l);
                            }
                        }
                    } else {
                        assert(nbase == base);
                        assert forall|k: int|
                            0 <= k < l implies ((k < index ==> #[trigger] self.backend@[(nbase + k)
                                % l] == mid.backend@[(base + k) % l]) && (k == index
                                ==> self.backend@[(nbase + k) % l] == Entry::Item(item)) && (index
                                < k ==> self.backend@[(nbase + k) % l] == mid.backend@[(base + k
                                - 1) % l])) by {
                            if k != index {
                                if k < index {
                                    lemma_window_distinct(base + k, base + index, l);
                                } else {
                                    lemma_window_distinct(base + index, base + k, l);
                                }
                            }
                            if k < index {
                                lemma_wrap_around(base + k, l);
                                assert(shifted.backend@[(base + (k + l)) % l] == mid.backend@[(base
                                    + (k + l)) % l]);
                            } else if k > index {
                                if k <= mid.size {
                                    assert(shifted.backend@[(base + k) % l] == mid.backend@[(base
                                        + k - 1) % l]);
                                } else {
                                    assert(shifted.backend@[(base + k) % l] == mid.backend@[(base
                                        + k) % l]);
                                    lemma_wrap_around(base + k - 1, l);
                                    assert(mid.backend@[(base + (k - 1 + l)) % l]
                                        == mid.backend@[(base + k - 1) % l]);
                                    assert(mid.backend@[(base + (k - 1)) % l] is Empty);
                                    assert(mid.backend@[(base + k) % l] is Empty);
                                }
                            }
                        }
                    }
                    assert forall|i: int| 0 <= i < self@.len() implies self@[i] == old(
                        self,
                    )@.insert(index as int, item)[i] by {
                        if i < index {
                            assert(self.backend@[(nbase + i) % l] == mid.backend@[(base + i) % l]);
                            assert(mid@[i] == mid.backend@[(base + i) % l]->Item_0);
                        } else if i > index {
                            assert(self.backend@[(nbase + i) % l] == mid.backend@[(base + i - 1)
                                % l]);
                            assert(mid@[i - 1] == mid.backend@[(base + (i - 1)) % l]->Item_0);
                        }
                    }
                    assert(self@ =~= old(self)@.insert(index as int, item));
                    assert forall|i: int| 0 <= i < self.size implies #[trigger] self.backend@[(
                    self.index + i) % l] is Item by {
                        if i < index {
                            assert(self.backend@[(nbase + i) % l] == mid.backend@[(base + i) % l]);
                            assert(mid.backend@[(base + i) % l] is Item);
                        } else if i > index {
                            assert(self.backend@[(nbase + i) % l] == mid.backend@[(base + i - 1)
                                % l]);
                            assert(mid.backend@[(base + (i - 1)) % l] is Item);
                        }
                    }
                    assert forall|i: int| self.size <= i < l implies #[trigger] self.backend@[(
                    self.index + i) % l] is Empty by {
                        assert(self.backend@[(nbase + i) % l] == mid.backend@[(base + i - 1) % l]);
                        assert(mid.backend@[(base + (i - 1)) % l] is Empty);
                    }
                }
                Ok(())
            },
            Err(_) => unreached(),
        }
    }

    fn remove(&mut self, index: usize) -> (r: Option<T>) {
        if index >= self.size {
            return None;
        }
        let ghost l = self.backend@.len() as int;
        let ghost base = self.index as int;
        let first_half = self.is_first_half(index);
        let slot: usize = self.backend_index(index);
        match self.backend.remove(slot) {
            Some(entry) => match entry {
                Entry::Item(item) => {
                    let ghost removed = *self;
                    if first_half {
                        self.shift_right(0, index);
                        self.index = self.backend_index(1);
                    } else {
                        self.shift_left(index, self.size - 1);
                    }
                    let ghost shifted = *self;
                    let ghost nbase = self.index as int;
                    self.size = self.size - 1;
                    proof {
                        if first_half {
                            assert(nbase == (base + 1) % l);
                            assert forall|j: int|
                                0 <= j < l implies ((j < index ==> #[trigger] self.backend@[(nbase
                                    + j) % l] == old(self).backend@[(base + j) % l]) && (index <= j
                                    < l - 1 ==> self.backend@[(nbase + j) % l] == old(
                                self,
                                ).backend@[(base + 1 + j) % l]) && (j == l - 1 ==> self.backend@[(
                                nbase + j) % l] is Empty)) by {
                                lemma_mod_base_reduce(base + 1, j, l);
                                if j < index {
                                    assert(shifted.backend@[(base + (j + 1)) % l]
                                        == removed.backend@[(base + j) % l]);
                                    lemma_window_distinct(base + j, base + index, l);
                                } else if j < l - 1 {
                                    assert(shifted.backend@[(base + (j + 1)) % l]
                                        == removed.backend@[(base + (j + 1)) % l]);
                                    if j + 1 != index {
                                        lemma_window_distinct(base + index, base + j + 1, l);
                                    }
                                } else {
                                    lemma_wrap_around(base, l);
                                    lemma_no_wrap(base, l);
                                    assert(shifted.backend@[(base + 0) % l]
                                        == removed.backend@[(base + index) % l]);
                                    assert((base + 1 + j) % l == base % l);
                                }
                            }
                            assert forall|i: int| 0 <= i < self.size implies #[trigger] self.backend@[(
                            self.index + i) % l] is Item by {
                                if i < index {
                                    assert(self.backend@[(nbase + i) % l] == old(self).backend@[(
                                    base + i) % l]);
                                    assert(old(self).backend@[(base + i) % l] is Item);
                                } else {
                                    assert(self.backend@[(nbase + i) % l] == old(self).backend@[(
                                    base + 1 + i) % l]);
                                    assert(old(self).backend@[(base + (i + 1)) % l] is Item);
                                }
                            }
                            assert forall|i: int| self.size <= i < l implies #[trigger] self.backend@[(
                            self.index + i) % l] is Empty by {
                                if i < l - 1 {
                                    assert(self.backend@[(nbase + i) % l] == old(self).backend@[(
                                    base + 1 + i) % l]);
                                    assert(old(self).backend@[(base + (i + 1)) % l] is Empty);
                                } else {
                                    assert(self.backend@[(nbase + i) % l] is Empty);
                                }
                            }
                            assert forall|i: int| 0 <= i < self@.len() implies self@[i] == old(
                                self,
                            )@.remove(index as int)[i] by {
                                if i < index {
                                    assert(self.backend@[(nbase + i) % l] == old(self).backend@[(
                                    base + i) % l]);
                                    assert(old(self)@[i] == old(self).backend@[(base + i)
                                        % l]->Item_0);
                                } else {
                                    assert(self.backend@[(nbase + i) % l] == old(self).backend@[(
                                    base + 1 + i) % l]);
                                    assert(old(self)@[i + 1] == old(self).backend@[(base + (i + 1))
                                        % l]->Item_0);
                                }
                            }
                            assert(self@ =~= old(self)@.remove(index as int));
                        } else {
                            assert(nbase == base);
                            assert forall|j: int|
                                0 <= j < l implies ((j < index ==> #[trigger] self.backend@[(base
                                    + j) % l] == old(self).backend@[(base + j) % l]) && (index <= j
                                    < old(self).size - 1 ==> self.backend@[(base + j) % l] == old(
                                self,
                                ).backend@[(base + j + 1) % l]) && (old(self).size - 1 <= j
                                    ==> self.backend@[(base + j) % l] is Empty)) by {
                                if j < index {
                                    lemma_wrap_around(base + j, l);
                                    assert(shifted.backend@[(base + (j + l)) % l]
                                        == removed.backend@[(base + (j + l)) % l]);
                                    lemma_window_distinct(base + j, base + index, l);
                                } else if j < old(self).size - 1 {
                                    assert(shifted.backend@[(base + j) % l] == removed.backend@[(
                                    base + (j + 1)) % l]);
                                    if j + 1 != index {
                                        lemma_window_distinct(base + index, base + j + 1, l);
                                    }
                                } else if j == old(self).size - 1 {
                                    assert(shifted.backend@[(base + j) % l] == removed.backend@[(
                                    base + index) % l]);
                                } else {
                                    assert(shifted.backend@[(base + j) % l] == removed.backend@[(
                                    base + j) % l]);
                                    lemma_window_distinct(base + index, base + j, l);
                                    assert(old(self).backend@[(base + j) % l] is Empty);
                                }
                            }
                            assert forall|i: int| 0 <= i < self.size implies #[trigger] self.backend@[(
                            self.index + i) % l] is Item by {
                                if i < index {
                                    assert(old(self).backend@[(base + i) % l] is Item);
                                } else {
                                    assert(self.backend@[(base + i) % l] == old(self).backend@[(
                                    base + i + 1) % l]);
                                    assert(old(self).backend@[(base + (i + 1)) % l] is Item);
                                }
                            }
                            assert forall|i: int| self.size <= i < l implies #[trigger] self.backend@[(
                            self.index + i) % l] is Empty by {
                                assert(self.backend@[(base + i) % l] is Empty);
                            }
                            assert forall|i: int| 0 <= i < self@.len() implies self@[i] == old(
                                self,
                            )@.remove(index as int)[i] by {
                                if i < index {
                                    assert(old(self)@[i] == old(self).backend@[(base + i)
                                        % l]->Item_0);
                                } else {
                                    assert(self.backend@[(base + i) % l] == old(self).backend@[(
                                    base + i + 1) % l]);
                                    assert(old(self)@[i + 1] == old(self).backend@[(base + (i + 1))
                                        % l]->Item_0);
                                }
                            }
                            assert(self@ =~= old(self)@.remove(index as int));
                        }
                        assert(old(self)@[index as int] == old(self).backend@[(base + index)
                            % l]->Item_0);
                    }
                    if self.is_size_down_required() {
                        self.size_down();
                    }
                    Some(item)
                },
                Entry::Empty => unreached(),
            },
            None => unreached(),
        }
    }
}

impl<T> Deque<T> for ArrayDeque<T> {
    fn add_first(&mut self, x: T) {
        match self.add(0, x) {
            Ok(()) => (),
            Err(_) => unreached(),
        }
    }

    fn add_last(&mut self, x: T) {
        let ghost pre = *self;
        let end = self.size;
        match self.add(end, x) {
            Ok(()) => (),
            Err(_) => unreached(),
        }
        proof {
            assert(pre@.insert(pre@.len() as int, x) =~= pre@.push(x));
        }
    }

    fn remove_first(&mut self) -> (r: Option<T>) {
        let ghost pre = *self;
        let r = self.remove(0);
        proof {
            if pre@.len() > 0 {
                assert(pre@.remove(0) =~= pre@.drop_first());
            }
        }
        r
    }

    fn remove_last(&mut self) -> (r: Option<T>) {
        if self.size == 0 {
            return None;
        }
        let ghost pre = *self;
        let end = self.size;
        let r = self.remove(end - 1);
        proof {
            assert(pre@.remove(pre@.len() - 1) =~= pre@.drop_last());
        }
        r
    }
}

impl<T> ArrayDeque<T> {
    fn is_size_up_required(&self) -> (b: bool)
        requires
            self.inv(),
        ensures
            b == grow_required(self@.len(), self.capacity()),
    {
        self.size == self.backend.len()
    }

    fn is_size_down_required(&self) -> (b: bool)
        requires
            self.inv(),
        ensures
            b == shrink_required(self@.len(), self.capacity()),
    {
        self.size * SIZE_DOWN_THRESHOLD < self.backend.len()
    }

    fn size_up(&mut self)
        requires
            old(self).inv(),
            old(self).capacity() <= usize::MAX / 8,
        ensures
            final(self).inv(),
            final(self)@ == old(self)@,
            final(self).size == old(self).size,
            final(self).index == 0,
            final(self).capacity() == grown_capacity(old(self).capacity()),
    {
        let new_length: usize = self.backend.len() * SIZE_UP_MULTIPLIER_NUMBER;
        self.backend.resize(new_length, self.index, self.size);
        self.index = 0;
        proof {
            let ghost nl = self.backend@.len() as int;
            assert forall|i: int| 0 <= i < nl implies #[trigger] ((0 + i) % nl) == i by {
                lemma_no_wrap(i, nl);
            }
            assert(self@ =~= old(self)@);
        }
    }

    fn size_down(&mut self)
        requires
            old(self).inv(),
            shrink_required(old(self)@.len(), old(self).capacity()),
        ensures
            final(self).inv(),
            final(self)@ == old(self)@,
            final(self).size == old(self).size,
            final(self).index == 0,
            final(self).capacity() == shrunk_capacity(old(self).capacity()),
    {
        let mut new_length: usize = self.backend.len() / SIZE_DOWN_DIVISION_NUMBER;
        if new_length < 1 {
            new_length = 1;
        }
        self.backend.resize(new_length, self.index, self.size);
        self.index = 0;
        proof {
            let ghost nl = self.backend@.len() as int;
            assert forall|i: int| 0 <= i < nl implies #[trigger] ((0 + i) % nl) == i by {
                lemma_no_wrap(i, nl);
            }
            assert(self@ =~= old(self)@);
        }
    }

    /// Rotates the circular range of logical positions `[from, to]` one step
    /// toward `to`, carrying the slot at `to` back to `from`.
    fn shift_right(&mut self, from: usize, to: usize)
        requires
            old(self).backend.wf(),
            1 <= old(self).backend@.len() <= usize::MAX / 4,
            old(self).index < old(self).backend@.len(),
            from <= to <= old(self).backend@.len(),
            to - from < old(self).backend@.len(),
        ensures
            final(self).backend.wf(),
            final(self).backend@.len() == old(self).backend@.len(),
            final(self).size == old(self).size,
            final(self).index == old(self).index,
            final(self).backend@[(old(self).index + from) % (old(self).backend@.len() as int)]
                == old(self).backend@[(old(self).index + to) % (old(self).backend@.len() as int)],
            forall|k: int|
                from < k <= to ==> #[trigger] final(self).backend@[(old(self).index + k) % (old(
                    self,
                ).backend@.len() as int)] == old(self).backend@[(old(self).index + k - 1) % (old(
                    self,
                ).backend@.len() as int)],
            forall|k: int|
                to < k < from + old(self).backend@.len() ==> #[trigger] final(self).backend@[(old(
                    self,
                ).index + k) % (old(self).backend@.len() as int)] == old(self).backend@[(old(
                    self,
                ).index + k) % (old(self).backend@.len() as int)],
    {
        self.backend.shift_right(self.index + from, self.index + to);
    }

    /// Rotates the circular range of logical positions `[from, to]` one step
    /// toward `from`, carrying the slot at `from` forward to `to`.
    fn shift_left(&mut self, from: usize, to: usize)
        requires
            old(self).backend.wf(),
            1 <= old(self).backend@.len() <= usize::MAX / 4,
            old(self).index < old(self).backend@.len(),
            from <= to <= 2 * old(self).backend@.len(),
            to - from < old(self).backend@.len(),
        ensures
            final(self).backend.wf(),
            final(self).backend@.len() == old(self).backend@.len(),
            final(self).size == old(self).size,
            final(self).index == old(self).index,
            final(self).backend@[(old(self).index + to) % (old(self).backend@.len() as int)] == old(
                self,
            ).backend@[(old(self).index + from) % (old(self).backend@.len() as int)],
            forall|k: int|
                from <= k < to ==> #[trigger] final(self).backend@[(old(self).index + k) % (old(
                    self,
                ).backend@.len() as int)] == old(self).backend@[(old(self).index + k + 1) % (old(
                    self,
                ).backend@.len() as int)],
            forall|k: int|
                to < k < from + old(self).backend@.len() ==> #[trigger] final(self).backend@[(old(
                    self,
                ).index + k) % (old(self).backend@.len() as int)] == old(self).backend@[(old(
                    self,
                ).index + k) % (old(self).backend@.len() as int)],
    {
        self.backend.shift_left(self.index + from, self.index + to);
    }
}

} // verus!
