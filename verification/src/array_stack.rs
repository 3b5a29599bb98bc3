use crate::backend::lemma_no_wrap;
use crate::backend::Array;
use crate::backend::Entry;
use crate::grow_required;
use crate::grown_capacity;
use crate::shrink_required;
use crate::shrunk_capacity;
use crate::CollectionError;
use crate::List;
use crate::Stack;
use vstd::pervasive::unreached;
use vstd::prelude::*;

verus! {

const DEFAULT_BACKEND_SIZE: usize = 2;

const SIZE_UP_MULTIPLIER_FACTOR: usize = 2;

const SIZE_DOWN_THRESHOLD: usize = 3;

const SIZE_DOWN_DIVISION_FACTOR: usize = 2;

/// A stack over a slot store. Logical index 0 always sits at physical slot 0,
/// so pushing and popping never move any other slot.
#[derive(Debug)]
pub struct ArrayStack<T> {
    array: Array<T>,
    size: usize,
}

impl<T> View for ArrayStack<T> {
    type V = Seq<T>;

    closed spec fn view(&self) -> Seq<T> {
        Seq::new(self.size as nat, |i: int| self.array@[i]->Item_0)
    }
}

impl<T> ArrayStack<T> {
    /// An empty stack with the default starting capacity.
    pub fn new() -> (s: ArrayStack<T>)
        ensures
            s.inv(),
            s@ == Seq::<T>::empty(),
            s.capacity() == 2,
    {
        let s = ArrayStack { array: Array::new(DEFAULT_BACKEND_SIZE), size: 0 };
        proof {
            assert(s@ =~= Seq::<T>::empty());
        }
        s
    }

    /// Current capacity of the backing store.
    pub fn backend_len(&self) -> (n: usize)
        requires
            self.inv(),
        ensures
            n == self.capacity(),
    {
        self.array.len()
    }
}

impl<T> List<T> for ArrayStack<T> {
    closed spec fn capacity(&self) -> nat {
        self.array@.len()
    }

    closed spec fn inv(&self) -> bool {
        &&& self.array.wf()
        &&& 1 <= self.array@.len() <= usize::MAX / 4
        &&& self.size <= self.array@.len()
        &&& forall|i: int| 0 <= i < self.size ==> self.array@[i] is Item
        &&& forall|i: int| self.size <= i < self.array@.len() ==> self.array@[i] is Empty
    }

    proof fn inv_properties(&self) {
    }

    fn size(&self) -> (n: usize) {
        self.size
    }

    fn get(&self, index: usize) -> (r: Option<&T>) {
        if index >= self.size {
            return None;
        }
        match self.array.get(index) {
            Some(entry) => match entry {
                Entry::Item(item) => Some(item),
                Entry::Empty => unreached(),
            },
            None => unreached(),
        }
    }

    fn set(&mut self, index: usize, item: T) -> (r: Result<(), CollectionError>) {
        if index >= self.size {
            return Err(CollectionError);
        }
        match self.array.set(index, item) {
            Ok(()) => {
                proof {
                    assert(self@ =~= old(self)@.update(index as int, item));
                }
                Ok(())
            },
            Err(_) => unreached(),
        }
    }

    fn add(&mut self, index: usize, item: T) -> (r: Result<(), CollectionError>) {
        if index > self.size {
            return Err(CollectionError);
        }
        if self.is_size_up_required() {
            self.size_up();
        }
        let ghost mid = *self;
        self.shift_right_from(index);
        match self.array.set(index, item) {
            Ok(()) => {
                proof {
                    assert forall|i: int| 0 <= i < self@.len() implies self@[i] == old(
                        self,
                    )@.insert(index as int, item)[i] by {
                        if i < index {
                            assert(self.array@[i] == mid.array@[i]);
                            assert(mid@[i] == mid.array@[i]->Item_0);
                        } else if i > index {
                            assert(self.array@[i] == mid.array@[i - 1]);
                            assert(mid@[i - 1] == mid.array@[i - 1]->Item_0);
                        }
                    }
                    assert(self@ =~= old(self)@.insert(index as int, item));
                }
                Ok(())
            },
            Err(_) => unreached(),
        }
    }

    fn remove(&mut self, index: usize) -> (r: Option<T>) {
        if index >= self.size {
            return None;
        }
        match self.array.remove(index) {
            Some(entry) => match entry {
                Entry::Item(item) => {
                    self.shift_left_to(index);
                    proof {
                        assert forall|i: int| 0 <= i < self@.len() implies self@[i] == old(
                            self,
                        )@.remove(index as int)[i] by {
                            if i >= index {
                                assert(self.array@[i] == old(self).array@[i + 1]);
                            }
                        }
                        assert(self@ =~= old(self)@.remove(index as int));
                    }
                    if self.is_size_down_required() {
                        self.size_down();
                    }
                    Some(item)
                },
                Entry::Empty => unreached(),
            },
            None => unreached(),
        }
    }
}

impl<T> Stack<T> for ArrayStack<T> {
    fn push(&mut self, x: T) {
        let ghost pre = *self;
        let end = self.size;
        match self.add(end, x) {
            Ok(()) => (),
            Err(_) => unreached(),
        }
        proof {
            assert(pre@.insert(pre@.len() as int, x) =~= pre@.push(x));
        }
    }

    fn pop(&mut self) -> (r: Option<T>) {
        if self.size == 0 {
            return None;
        }
        let ghost pre = *self;
        let end = self.size;
        let r = self.remove(end - 1);
        proof {
            assert(pre@.remove(pre@.len() - 1) =~= pre@.drop_last());
        }
        r
    }
}

impl<T> ArrayStack<T> {
    fn is_size_up_required(&self) -> (b: bool)
        requires
            self.inv(),
        ensures
            b == grow_required(self@.len(), self.capacity()),
    {
        self.size == self.array.len()
    }

    fn is_size_down_required(&self) -> (b: bool)
        requires
            self.inv(),
        ensures
            b == shrink_required(self@.len(), self.capacity()),
    {
        self.size * SIZE_DOWN_THRESHOLD < self.array.len()
    }

    fn size_up(&mut self)
        requires
            old(self).inv(),
            old(self).capacity() <= usize::MAX / 8,
        ensures
            final(self).inv(),
            final(self)@ == old(self)@,
            final(self).size == old(self).size,
            final(self).capacity() == grown_capacity(old(self).capacity()),
    {
        let ghost l = self.array@.len() as int;
        let new_length: usize = self.array.len() * SIZE_UP_MULTIPLIER_FACTOR;
        self.array.resize(new_length, 0, self.size);
        proof {
            assert forall|j: int| 0 <= j < self.size implies self.array@[j] == old(
                self,
            ).array@[j] by {
                lemma_no_wrap(j, l);
            }
            assert(self@ =~= old(self)@);
        }
    }

    fn size_down(&mut self)
        requires
            old(self).inv(),
            shrink_required(old(self)@.len(), old(self).capacity()),
        ensures
            final(self).inv(),
            final(self)@ == old(self)@,
            final(self).size == old(self).size,
            final(self).capacity() == shrunk_capacity(old(self).capacity()),
    {
        let ghost l = self.array@.len() as int;
        let mut new_length: usize = self.array.len() / SIZE_DOWN_DIVISION_FACTOR;
        if new_length < 1 {
            new_length = 1;
        }
        self.array.resize(new_length, 0, self.size);
        proof {
            assert forall|j: int| 0 <= j < self.size implies self.array@[j] == old(
                self,
            ).array@[j] by {
                lemma_no_wrap(j, l);
            }
            assert(self@ =~= old(self)@);
        }
    }

    /// Opens a gap at `index` by rotating the used range one slot upward,
    /// then counts the gap into the size.
    fn shift_right_from(&mut self, index: usize)
        requires
            old(self).inv(),
            old(self)@.len() < old(self).capacity(),
            index <= old(self).size,
        ensures
            final(self).array.wf(),
            final(self).array@.len() == old(self).array@.len(),
            final(self).size == old(self).size + 1,
            forall|i: int| 0 <= i < index ==> final(self).array@[i] == old(self).array@[i],
            forall|i: int|
                index < i <= old(self).size ==> final(self).array@[i] == old(self).array@[i - 1],
            final(self).array@[index as int] is Empty,
            forall|i: int|
                old(self).size < i < old(self).array@.len() ==> final(self).array@[i] is Empty,
    {
        self.array.shift_right(index, self.size);
        self.size = self.size + 1;
    }

    /// Closes the gap at `index` by rotating the used range above it one slot
    /// downward, then counts the vacated end slot out of the size.
    fn shift_left_to(&mut self, index: usize)
        requires
            old(self).array.wf(),
            1 <= old(self).array@.len() <= usize::MAX / 4,
            old(self).size <= old(self).array@.len(),
            index < old(self).size,
            old(self).array@[index as int] is Empty,
            forall|i: int| 0 <= i < old(self).size && i != index ==> old(self).array@[i] is Item,
            forall|i: int|
                old(self).size <= i < old(self).array@.len() ==> old(self).array@[i] is Empty,
        ensures
            final(self).array.wf(),
            final(self).array@.len() == old(self).array@.len(),
            final(self).size == old(self).size - 1,
            forall|i: int| 0 <= i < index ==> final(self).array@[i] == old(self).array@[i],
            forall|i: int|
                index <= i < old(self).size - 1 ==> final(self).array@[i] == old(self).array@[i
                    + 1],
            forall|i: int|
                old(self).size - 1 <= i < old(self).array@.len() ==> final(self).array@[i]
                    is Empty,
    {
        self.array.shift_left(index, self.size - 1);
        self.size = self.size - 1;
    }
}

} // verus!
