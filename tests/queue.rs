use clrs::queue::Queue;

#[test]
fn test_queue_is_empty() {
    let queue: Queue<i32> = Queue::new();
    assert_eq!(queue.is_empty(), true);
}

#[test]
fn test_enque() {
    let mut queue = Queue::new();
    queue.enque('a');
    queue.enque('b');
    assert_eq!(queue.size(), 2);
    assert_eq!(*queue.peek().unwrap(), 'a');
}

#[test]
fn test_deque() {
    let mut queue = Queue::new();
    queue.enque('a');
    queue.enque('b');
    assert_eq!(queue.deque().unwrap(), 'a');
    assert_eq!(queue.size(), 1);
}

#[test]
fn queue_test_peek() {
    let mut queue = Queue::new();
    queue.enque('a');
    queue.enque('b');
    assert_eq!(*queue.peek().unwrap(), 'a');
    assert_eq!(queue.size(), 2);
}

#[test]
fn queue_test_peek_mut() {
    let mut queue = Queue::new();
    queue.enque('a');
    *queue.peek_mut().unwrap() = 'b';
    assert_eq!(*queue.peek().unwrap(), 'b');
    assert_eq!(queue.size(), 1);
}

#[test]
fn queue_is_first_in_first_out() {
    let mut queue = Queue::new();
    queue.enque('a');
    queue.enque('b');
    assert_eq!(queue.deque(), Some('a'));
    assert_eq!(queue.deque(), Some('b'));
    assert_eq!(queue.deque(), None);
    assert!(queue.is_empty());
}

#[test]
fn queue_deque_on_empty_is_none() {
    let mut queue: Queue<u8> = Queue::new();
    assert_eq!(queue.deque(), None);
    assert!(queue.peek().is_none());
    assert!(queue.peek_mut().is_none());
    assert_eq!(queue.size(), 0);
}

#[test]
fn queue_refills_after_emptying() {
    let mut queue = Queue::new();
    for round in 0..3 {
        for i in 0..5 {
            queue.enque(round * 10 + i);
        }
        for i in 0..5 {
            assert_eq!(queue.deque(), Some(round * 10 + i));
        }
        assert!(queue.is_empty());
    }
}
