use open_data_structures::array_deque::ArrayDeque;
use open_data_structures::CollectionError;
use open_data_structures::Deque;
use open_data_structures::List;

#[test]
pub fn deque() {
    let mut deque = ArrayDeque::new();
    assert_eq!(deque.size(), 0);

    deque.add_last(1);
    deque.add_last(2);
    deque.add_last(3);
    deque.add_first(4);
    deque.add_first(5);

    assert_eq!(deque.size(), 5);

    assert_eq!(deque.get(0), Some(&5));
    assert_eq!(deque.get(1), Some(&4));
    assert_eq!(deque.get(2), Some(&1));
    assert_eq!(deque.get(3), Some(&2));
    assert_eq!(deque.get(4), Some(&3));
    assert_eq!(deque.get(5), None);

    assert_eq!(deque.remove_last(), Some(3));
    assert_eq!(deque.remove_last(), Some(2));

    assert_eq!(deque.size(), 3);

    assert_eq!(deque.get(0), Some(&5));
    assert_eq!(deque.get(1), Some(&4));
    assert_eq!(deque.get(2), Some(&1));
    assert_eq!(deque.get(3), None);
    assert_eq!(deque.get(4), None);
    assert_eq!(deque.get(5), None);

    assert_eq!(deque.remove_first(), Some(5));
    assert_eq!(deque.remove_first(), Some(4));
    assert_eq!(deque.remove_first(), Some(1));

    assert_eq!(deque.size(), 0);
}

#[test]
pub fn deque_remove_when_empty() {
    let mut deque: ArrayDeque<i32> = ArrayDeque::new();
    assert_eq!(deque.remove_first(), None);
    assert_eq!(deque.remove_last(), None);

    deque.add_first(1);
    assert_eq!(deque.remove_last(), Some(1));
    assert_eq!(deque.remove_last(), None);
    assert_eq!(deque.size(), 0);
}

#[test]
pub fn deque_set_and_bounds() {
    let mut deque = ArrayDeque::new();
    deque.add_last(1);
    deque.add_last(2);
    deque.add_last(3);

    assert_eq!(deque.set(2, 9), Ok(()));
    assert_eq!(deque.get(2), Some(&9));

    assert_eq!(deque.set(3, 7), Err(CollectionError));
    assert_eq!(deque.add(5, 7), Err(CollectionError));
    assert_eq!(deque.remove(3), None);
    assert_eq!(deque.get(3), None);
    assert_eq!(deque.size(), 3);
}

#[test]
pub fn deque_interior_on_wrapped_window() {
    // three prepends leave the window origin at the last physical slot
    let mut deque = ArrayDeque::new();
    deque.add_first(1);
    deque.add_first(2);
    deque.add_first(3);
    assert_eq!(deque.size(), 3);
    assert_eq!(deque.backend_len(), 4);

    // index 1 falls in the back half: the elements behind it rotate upward
    assert_eq!(deque.add(1, 9), Ok(()));
    assert_eq!(deque.get(0), Some(&3));
    assert_eq!(deque.get(1), Some(&9));
    assert_eq!(deque.get(2), Some(&2));
    assert_eq!(deque.get(3), Some(&1));

    // index 1 now falls in the front half: the elements before it rotate
    // and the window origin advances
    assert_eq!(deque.remove(1), Some(9));
    assert_eq!(deque.get(0), Some(&3));
    assert_eq!(deque.get(1), Some(&2));
    assert_eq!(deque.get(2), Some(&1));

    assert_eq!(deque.remove(1), Some(2));
    assert_eq!(deque.get(0), Some(&3));
    assert_eq!(deque.get(1), Some(&1));
    assert_eq!(deque.size(), 2);
}

#[test]
pub fn deque_capacity_policy() {
    let mut deque = ArrayDeque::new();
    assert_eq!(deque.backend_len(), 2);
    deque.add_first(1);
    deque.add_first(2);
    assert_eq!(deque.backend_len(), 2);
    deque.add_first(3);
    assert_eq!(deque.backend_len(), 4);
    deque.add_last(4);
    deque.add_last(5);
    assert_eq!(deque.backend_len(), 8);

    deque.remove_last();
    deque.remove_last();
    deque.remove_last();
    assert_eq!(deque.backend_len(), 4);
    deque.remove_first();
    assert_eq!(deque.backend_len(), 2);
    deque.remove_first();
    assert_eq!(deque.backend_len(), 1);
    assert_eq!(deque.size(), 0);
}

#[test]
pub fn deque_round_trip() {
    let mut deque = ArrayDeque::new();
    for value in [1, 2, 3, 4] {
        deque.add_last(value);
    }
    for expected in [1, 2, 3, 4] {
        assert_eq!(deque.remove_first(), Some(expected));
    }
    assert_eq!(deque.size(), 0);

    for value in [1, 2, 3, 4] {
        deque.add_first(value);
    }
    for expected in [1, 2, 3, 4] {
        assert_eq!(deque.remove_last(), Some(expected));
    }
    assert_eq!(deque.size(), 0);
}

#[test]
pub fn deque_interleaved_matches_reference() {
    // every step is checked against a plain double-ended vector simulation
    let mut deque = ArrayDeque::new();
    let mut reference: std::collections::VecDeque<u32> = std::collections::VecDeque::new();
    let moves: Vec<(u8, u32)> = vec![
        (0, 10),
        (1, 20),
        (0, 30),
        (2, 0),
        (1, 40),
        (0, 50),
        (3, 0),
        (2, 0),
        (1, 60),
        (0, 70),
        (2, 0),
        (3, 0),
        (3, 0),
        (2, 0),
    ];
    for (kind, value) in moves {
        match kind {
            0 => {
                deque.add_first(value);
                reference.push_front(value);
            },
            1 => {
                deque.add_last(value);
                reference.push_back(value);
            },
            2 => {
                assert_eq!(deque.remove_first(), reference.pop_front());
            },
            _ => {
                assert_eq!(deque.remove_last(), reference.pop_back());
            },
        }
        assert_eq!(deque.size(), reference.len());
        for i in 0..reference.len() + 1 {
            assert_eq!(deque.get(i), reference.get(i));
        }
    }
}
