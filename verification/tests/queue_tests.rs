use ferret::config::MAX_TASKS;
use ferret::scheduler::queue::PriorityQueue;

#[test]
fn pop_returns_highest_priority_first() {
    let mut q: PriorityQueue<MAX_TASKS> = PriorityQueue::new();
    q.insert(0, 3);
    q.insert(1, 9);
    q.insert(2, 1);
    q.insert(3, 7);
    assert_eq!(q.len(), 4);
    assert_eq!(q.peek_max(), Some(1));
    assert_eq!(q.peek_max_priority(), 9);
    assert_eq!(q.pop_max(), Some(1));
    assert_eq!(q.pop_max(), Some(3));
    assert_eq!(q.pop_max(), Some(0));
    assert_eq!(q.pop_max(), Some(2));
    assert_eq!(q.pop_max(), None);
    assert!(q.is_empty());
}

#[test]
fn insert_pop_roundtrip() {
    let mut q: PriorityQueue<MAX_TASKS> = PriorityQueue::new();
    q.insert(42, 5);
    assert_eq!(q.pop_max(), Some(42));
    assert!(q.is_empty());
}

#[test]
fn empty_queue_peeks() {
    let q: PriorityQueue<4> = PriorityQueue::new();
    assert_eq!(q.peek_max(), None);
    assert_eq!(q.peek_max_priority(), 0);
    assert_eq!(q.len(), 0);
}

#[test]
fn sorted_pop_order_over_full_queue() {
    let mut q: PriorityQueue<MAX_TASKS> = PriorityQueue::new();
    let prios: [u8; 16] = [4, 15, 0, 8, 8, 2, 11, 3, 7, 1, 9, 14, 6, 5, 12, 10];
    for (i, p) in prios.iter().enumerate() {
        q.insert(i as u8, *p);
    }
    assert_eq!(q.len(), MAX_TASKS);
    let mut prev = u8::MAX;
    let mut popped = 0;
    while !q.is_empty() {
        let p = q.peek_max_priority();
        assert!(p <= prev);
        let id = q.pop_max().unwrap();
        assert_eq!(prios[id as usize], p);
        prev = p;
        popped += 1;
    }
    assert_eq!(popped, MAX_TASKS);
}

#[test]
fn equal_priorities_leave_in_insertion_order() {
    let mut q: PriorityQueue<MAX_TASKS> = PriorityQueue::new();
    q.insert(7, 5);
    q.insert(3, 5);
    q.insert(9, 5);
    q.insert(1, 8);
    q.insert(4, 5);
    assert_eq!(q.next_seq(), 5);
    assert_eq!(q.pop_max(), Some(1));
    assert_eq!(q.pop_max(), Some(7));
    q.insert(7, 5);
    assert_eq!(q.pop_max(), Some(3));
    assert_eq!(q.pop_max(), Some(9));
    assert_eq!(q.pop_max(), Some(4));
    assert_eq!(q.pop_max(), Some(7));
    assert_eq!(q.pop_max(), None);
}
