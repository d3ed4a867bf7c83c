use neural::priorityqueue::PriorityQueue;

#[test]
fn priorityqueue_works() {
    // Comparison function for the data format we are using
    let fb = &mut |a: &i32, b: &i32| a < b;

    let mut queue = PriorityQueue::new(&45);
    queue.enqueue(&20, fb);
    queue.enqueue(&14, fb);
    queue.enqueue(&12, fb);
    queue.enqueue(&31, fb);
    queue.enqueue(&7, fb);
    queue.enqueue(&11, fb);
    queue.enqueue(&13, fb);
    queue.enqueue(&7, fb);

    let mut result = vec![];
    while let Some(val) = queue.dequeue_top() {
        result.push(val.clone());
    }

    assert_eq!(result.as_slice(), &[45, 31, 14, 13, 20, 7, 11, 12, 7])
}

#[test]
fn a_new_queue_holds_its_root() {
    let mut queue = PriorityQueue::new(&5);
    assert_eq!(queue.len(), 1);
    assert_eq!(queue.dequeue_top(), Some(5));
    assert_eq!(queue.len(), 0);
    assert_eq!(queue.dequeue_top(), None);
    assert_eq!(queue.dequeue_bottom(), None);
}

#[test]
fn enqueue_lets_the_item_rise() {
    let lower = &mut |a: &i32, b: &i32| a < b;
    let mut queue = PriorityQueue::new(&1);
    queue.enqueue(&2, lower);
    queue.enqueue(&3, lower);
    queue.enqueue(&4, lower);
    // 1 | 2 1 | 3 1 2 | 3 1 2 4 -> 3 4 2 1 -> 4 3 2 1
    assert_eq!(queue.len(), 4);
    assert_eq!(queue.dequeue_top(), Some(4));
    assert_eq!(queue.dequeue_top(), Some(3));
    assert_eq!(queue.dequeue_top(), Some(2));
    assert_eq!(queue.dequeue_top(), Some(1));
}

#[test]
fn enqueue_stops_where_the_parent_ranks_higher() {
    let lower = &mut |a: &i32, b: &i32| a < b;
    let mut queue = PriorityQueue::new(&9);
    queue.enqueue(&5, lower);
    queue.enqueue(&7, lower);
    queue.enqueue(&6, lower);
    // 9 5 7 | 6 rises past 5 only
    assert_eq!(queue.dequeue_bottom(), Some(5));
    assert_eq!(queue.dequeue_bottom(), Some(7));
    assert_eq!(queue.dequeue_bottom(), Some(6));
    assert_eq!(queue.dequeue_bottom(), Some(9));
    assert_eq!(queue.dequeue_bottom(), None);
}

#[test]
fn enqueue_skips_an_item_equal_to_its_parent() {
    let lower = &mut |a: &i32, b: &i32| a < b;
    let mut queue = PriorityQueue::new(&9);
    queue.enqueue(&9, lower);
    assert_eq!(queue.len(), 1);
    queue.enqueue(&4, lower);
    queue.enqueue(&4, lower);
    // the second 4 would hang under 9, not under the first 4
    assert_eq!(queue.len(), 3);
    queue.enqueue(&4, lower);
    // position 3 hangs under position 1, which holds 4
    assert_eq!(queue.len(), 3);
}

#[test]
fn enqueue_never_swaps_when_told_not_to() {
    let never = &mut |_: &i32, _: &i32| false;
    let mut queue = PriorityQueue::new(&1);
    queue.enqueue(&2, never);
    queue.enqueue(&3, never);
    assert_eq!(queue.dequeue_top(), Some(1));
    assert_eq!(queue.dequeue_top(), Some(2));
    assert_eq!(queue.dequeue_top(), Some(3));
}
