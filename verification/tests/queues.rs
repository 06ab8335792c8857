use netstack::queue::{QueueError, RecvQueue, SendQueue, SendQueueError};

#[test]
fn recv_queue_is_fifo_and_bounded() {
    let mut q = RecvQueue::new(2);
    assert_eq!(q.push(vec![1]), Ok(()));
    assert_eq!(q.push(vec![2]), Ok(()));
    assert_eq!(q.push(vec![3]), Err(QueueError::Full));
    assert_eq!(q.len(), 2);
    assert_eq!(q.pop(), Some(vec![1]));
    assert_eq!(q.push(vec![4]), Ok(()));
    assert_eq!(q.pop(), Some(vec![2]));
    assert_eq!(q.pop(), Some(vec![4]));
    assert_eq!(q.pop(), None);
}

#[test]
fn closed_queue_refuses_pushes_but_drains() {
    let mut q = RecvQueue::new(4);
    q.push(vec![9]).unwrap();
    q.close();
    assert!(q.is_closed());
    assert_eq!(q.push(vec![8]), Err(QueueError::Closed));
    assert_eq!(q.pop(), Some(vec![9]));
    assert_eq!(q.pop(), None);

    let mut s = SendQueue::new(1);
    assert!(!s.is_closed());
    s.push(vec![1, 2]).unwrap();
    assert_eq!(s.push(vec![3]), Err(SendQueueError::Full));
    s.close();
    assert_eq!(s.push(vec![3]), Err(SendQueueError::Closed));
    assert_eq!(s.pop(), Some(vec![1, 2]));
    assert_eq!(s.pop(), None);
}

#[test]
fn zero_capacity_queue_is_always_full() {
    let mut q = SendQueue::new(0);
    assert_eq!(q.push(vec![]), Err(SendQueueError::Full));
}

#[test]
fn interleaved_pushes_and_pops_keep_the_order() {
    let mut q = SendQueue::new(8);
    let mut taken = Vec::new();
    for round in 0..5u8 {
        q.push(vec![round, 0]).unwrap();
        q.push(vec![round, 1]).unwrap();
        taken.push(q.pop().unwrap());
    }
    while let Some(f) = q.pop() {
        taken.push(f);
    }
    let expected: Vec<Vec<u8>> = (0..5u8).flat_map(|r| [vec![r, 0], vec![r, 1]]).collect();
    assert_eq!(taken, expected);
    q.close();
    assert_eq!(q.pop(), None);
}
