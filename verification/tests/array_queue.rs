use open_data_structures::array_queue::ArrayQueue;
use open_data_structures::CollectionError;
use open_data_structures::List;
use open_data_structures::Queue;

#[test]
pub fn queue() {
    let mut queue = ArrayQueue::new();
    assert_eq!(queue.size(), 0);

    queue.enqueue(1);
    queue.enqueue(2);
    queue.enqueue(3);
    queue.enqueue(4);
    queue.enqueue(5);

    assert_eq!(queue.size(), 5);

    assert_eq!(queue.get(0), Some(&1));
    assert_eq!(queue.get(1), Some(&2));
    assert_eq!(queue.get(2), Some(&3));
    assert_eq!(queue.get(3), Some(&4));
    assert_eq!(queue.get(4), Some(&5));
    assert_eq!(queue.get(5), None);

    assert_eq!(queue.dequeue(), Some(1));
    assert_eq!(queue.dequeue(), Some(2));

    assert_eq!(queue.size(), 3);

    assert_eq!(queue.get(0), Some(&3));
    assert_eq!(queue.get(1), Some(&4));
    assert_eq!(queue.get(2), Some(&5));
    assert_eq!(queue.get(3), None);
    assert_eq!(queue.get(4), None);
    assert_eq!(queue.get(5), None);

    assert_eq!(queue.dequeue(), Some(3));
    assert_eq!(queue.dequeue(), Some(4));
    assert_eq!(queue.dequeue(), Some(5));

    assert_eq!(queue.size(), 0);
}

#[test]
pub fn queue_dequeue_when_empty() {
    let mut queue: ArrayQueue<i32> = ArrayQueue::new();
    assert_eq!(queue.dequeue(), None);

    queue.enqueue(1);
    assert_eq!(queue.dequeue(), Some(1));
    assert_eq!(queue.dequeue(), None);
    assert_eq!(queue.size(), 0);
}

#[test]
pub fn queue_capacity_policy() {
    let mut queue = ArrayQueue::new();
    assert_eq!(queue.backend_len(), 2);

    queue.enqueue(1);
    queue.enqueue(2);
    assert_eq!(queue.backend_len(), 2);
    queue.enqueue(3);
    assert_eq!(queue.backend_len(), 4);
    queue.enqueue(4);
    queue.enqueue(5);
    assert_eq!(queue.backend_len(), 8);

    queue.dequeue();
    queue.dequeue();
    assert_eq!(queue.backend_len(), 8);
    queue.dequeue();
    assert_eq!(queue.backend_len(), 4);
    queue.dequeue();
    assert_eq!(queue.backend_len(), 2);
    queue.dequeue();
    assert_eq!(queue.backend_len(), 1);
    assert_eq!(queue.size(), 0);
}

#[test]
pub fn queue_wraps_around_the_store() {
    // march the window round the store so that it crosses the physical end
    let mut queue = ArrayQueue::new();
    queue.enqueue(1);
    queue.enqueue(2);
    queue.enqueue(3);
    queue.enqueue(4);
    assert_eq!(queue.dequeue(), Some(1));
    queue.enqueue(5);

    assert_eq!(queue.size(), 4);
    assert_eq!(queue.get(0), Some(&2));
    assert_eq!(queue.get(1), Some(&3));
    assert_eq!(queue.get(2), Some(&4));
    assert_eq!(queue.get(3), Some(&5));
}

#[test]
pub fn queue_interior_add_and_remove() {
    let mut queue = ArrayQueue::new();
    queue.enqueue(1);
    queue.enqueue(2);
    queue.enqueue(3);
    queue.enqueue(4);
    assert_eq!(queue.dequeue(), Some(1));
    queue.enqueue(5);

    // the window now wraps; inserting and deleting in its middle still
    // shifts the right elements
    assert_eq!(queue.add(1, 9), Ok(()));
    assert_eq!(queue.size(), 5);
    assert_eq!(queue.get(0), Some(&2));
    assert_eq!(queue.get(1), Some(&9));
    assert_eq!(queue.get(2), Some(&3));
    assert_eq!(queue.get(3), Some(&4));
    assert_eq!(queue.get(4), Some(&5));

    assert_eq!(queue.remove(2), Some(3));
    assert_eq!(queue.size(), 4);
    assert_eq!(queue.get(0), Some(&2));
    assert_eq!(queue.get(1), Some(&9));
    assert_eq!(queue.get(2), Some(&4));
    assert_eq!(queue.get(3), Some(&5));
}

#[test]
pub fn queue_set_and_bounds() {
    let mut queue = ArrayQueue::new();
    queue.enqueue(1);
    queue.enqueue(2);

    assert_eq!(queue.set(0, 9), Ok(()));
    assert_eq!(queue.get(0), Some(&9));

    assert_eq!(queue.set(2, 7), Err(CollectionError));
    assert_eq!(queue.add(3, 7), Err(CollectionError));
    assert_eq!(queue.remove(2), None);
    assert_eq!(queue.get(2), None);
    assert_eq!(queue.size(), 2);
}

#[test]
pub fn queue_round_trip() {
    let mut queue = ArrayQueue::new();
    for value in [10, 20, 30, 40, 50, 60] {
        queue.enqueue(value);
    }
    for expected in [10, 20, 30, 40, 50, 60] {
        assert_eq!(queue.dequeue(), Some(expected));
    }
    assert_eq!(queue.size(), 0);
}

#[test]
pub fn queue_interior_when_window_wraps() {
    // build a window that crosses the physical end of an eight-slot store
    let mut queue = ArrayQueue::new();
    for value in [1, 2, 3, 4, 5, 6] {
        queue.enqueue(value);
    }
    assert_eq!(queue.backend_len(), 8);
    assert_eq!(queue.dequeue(), Some(1));
    assert_eq!(queue.dequeue(), Some(2));
    assert_eq!(queue.dequeue(), Some(3));
    queue.enqueue(7);
    queue.enqueue(8);
    queue.enqueue(9);
    assert_eq!(queue.size(), 6);
    assert_eq!(queue.backend_len(), 8);

    assert_eq!(queue.add(4, 99), Ok(()));
    for (i, expected) in [4, 5, 6, 7, 99, 8, 9].iter().enumerate() {
        assert_eq!(queue.get(i), Some(expected));
    }

    assert_eq!(queue.remove(5), Some(8));
    for (i, expected) in [4, 5, 6, 7, 99, 9].iter().enumerate() {
        assert_eq!(queue.get(i), Some(expected));
    }
    assert_eq!(queue.size(), 6);
}
