use open_data_structures::array_stack::ArrayStack;
use open_data_structures::CollectionError;
use open_data_structures::List;
use open_data_structures::Stack;

#[test]
pub fn stack() {
    let mut array = ArrayStack::new();
    assert_eq!(array.size(), 0);
    assert_eq!(array.backend_len(), 2);

    array.push(1);
    array.push(2);
    array.push(3);
    array.push(4);
    array.push(5);

    assert_eq!(array.size(), 5);
    assert_eq!(array.backend_len(), 8);

    check(
        &array,
        vec![
            (0, Some(&1)),
            (1, Some(&2)),
            (2, Some(&3)),
            (3, Some(&4)),
            (4, Some(&5)),
            (5, None),
        ],
    );

    assert_eq!(array.pop(), Some(5));
    assert_eq!(array.pop(), Some(4));

    assert_eq!(array.size(), 3);

    check(
        &array,
        vec![
            (0, Some(&1)),
            (1, Some(&2)),
            (2, Some(&3)),
            (3, None),
            (4, None),
            (5, None),
        ],
    );

    assert_eq!(array.pop(), Some(3));
    assert_eq!(array.backend_len(), 4);

    assert_eq!(array.pop(), Some(2));
    assert_eq!(array.pop(), Some(1));

    assert_eq!(array.size(), 0);
    assert_eq!(array.backend_len(), 1);
}

fn check<T>(array: &ArrayStack<T>, items: Vec<(usize, Option<&T>)>)
where
    T: std::fmt::Debug + std::cmp::PartialEq,
{
    for (i, entry) in items.iter() {
        assert_eq!(array.get(*i), *entry);
    }
}

#[test]
pub fn stack_pop_when_empty() {
    let mut array: ArrayStack<i32> = ArrayStack::new();
    assert_eq!(array.pop(), None);

    array.push(1);
    assert_eq!(array.pop(), Some(1));
    assert_eq!(array.pop(), None);
    assert_eq!(array.size(), 0);
}

#[test]
pub fn stack_pop_when_full() {
    // the backing store is full here: the rotation that closes the gap must
    // not wrap into the front of the window
    let mut array = ArrayStack::new();
    array.push(1);
    array.push(2);
    assert_eq!(array.size(), 2);
    assert_eq!(array.backend_len(), 2);

    assert_eq!(array.pop(), Some(2));
    assert_eq!(array.get(0), Some(&1));
    assert_eq!(array.pop(), Some(1));
    assert_eq!(array.size(), 0);
}

#[test]
pub fn stack_set_and_bounds() {
    let mut array = ArrayStack::new();
    array.push(1);
    array.push(2);
    array.push(3);

    assert_eq!(array.set(1, 9), Ok(()));
    assert_eq!(array.get(1), Some(&9));

    assert_eq!(array.set(3, 7), Err(CollectionError));
    assert_eq!(array.add(5, 7), Err(CollectionError));
    assert_eq!(array.remove(3), None);
    assert_eq!(array.get(3), None);
    assert_eq!(array.size(), 3);
}

#[test]
pub fn stack_interior_add_and_remove() {
    let mut array = ArrayStack::new();
    array.push(1);
    array.push(2);
    array.push(3);

    assert_eq!(array.add(1, 9), Ok(()));
    assert_eq!(array.size(), 4);
    assert_eq!(array.get(0), Some(&1));
    assert_eq!(array.get(1), Some(&9));
    assert_eq!(array.get(2), Some(&2));
    assert_eq!(array.get(3), Some(&3));

    assert_eq!(array.remove(1), Some(9));
    assert_eq!(array.get(0), Some(&1));
    assert_eq!(array.get(1), Some(&2));
    assert_eq!(array.get(2), Some(&3));
    assert_eq!(array.size(), 3);
}

#[test]
pub fn stack_round_trip() {
    let mut array = ArrayStack::new();
    for value in 1..=4 {
        array.push(value);
    }
    assert_eq!(array.pop(), Some(4));
    assert_eq!(array.pop(), Some(3));
    assert_eq!(array.pop(), Some(2));
    assert_eq!(array.pop(), Some(1));
    assert_eq!(array.size(), 0);
}

#[test]
pub fn stack_interleaved_matches_reference() {
    // every step is checked against a plain vector doing the same operations
    let mut array = ArrayStack::new();
    let mut reference: Vec<u32> = Vec::new();
    let moves: Vec<(bool, u32)> = vec![
        (true, 10),
        (true, 20),
        (false, 0),
        (true, 30),
        (true, 40),
        (true, 50),
        (false, 0),
        (false, 0),
        (true, 60),
        (false, 0),
        (false, 0),
    ];
    for (is_push, value) in moves {
        if is_push {
            array.push(value);
            reference.push(value);
        } else {
            assert_eq!(array.pop(), reference.pop());
        }
        assert_eq!(array.size(), reference.len());
        for i in 0..reference.len() + 1 {
            assert_eq!(array.get(i), reference.get(i));
        }
    }
}
