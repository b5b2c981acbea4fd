use bucket_sim::queue::BucketQueue;

fn sample_keys() -> Vec<u64> {
    vec![5, 1, 9, 3, 7, 2, 8, 0, 6, 4]
}

#[test]
fn pops_in_key_order() {
    let mut q = BucketQueue::new(&sample_keys(), 4);
    let mut got = Vec::new();
    for _ in 0..10 {
        let (_, k) = q.pop().unwrap();
        got.push(k);
    }
    assert_eq!(got, vec![0, 1, 2, 3, 4, 5, 6, 7, 8, 9]);
    assert_eq!(q.pop(), None);
    assert_eq!(q.len(), 0);
}

#[test]
fn pop_returns_index_of_key() {
    let keys = sample_keys();
    let mut q = BucketQueue::new(&keys, 4);
    while let Some((i, k)) = q.pop() {
        assert_eq!(keys[i], k);
    }
}

#[test]
fn reinsert_larger_key_moves_max_and_min() {
    let mut q = BucketQueue::new(&sample_keys(), 4);
    let (i, k) = q.pop().unwrap();
    assert_eq!((i, k), (7, 0));
    q.reinsert(i, 20);
    assert_eq!(q.max(), Some(20));
    assert_eq!(q.min(), Some(1));
    assert_eq!(q.len(), 10);
}

#[test]
fn min_and_max_of_sample() {
    let q = BucketQueue::new(&sample_keys(), 4);
    assert_eq!(q.min(), Some(0));
    assert_eq!(q.max(), Some(9));
    assert_eq!(q.bucket_count(), 4);
}

#[test]
fn empty_queue() {
    let mut q = BucketQueue::new(&Vec::new(), 3);
    assert_eq!(q.min(), None);
    assert_eq!(q.max(), None);
    assert_eq!(q.pop(), None);
}

#[test]
fn equal_keys_all_come_out() {
    let keys = vec![4, 4, 4, 8, 4, 0, 4];
    let mut q = BucketQueue::new(&keys, 4);
    let mut got = Vec::new();
    let mut seen = Vec::new();
    while let Some((i, k)) = q.pop() {
        got.push(k);
        seen.push(i);
    }
    assert_eq!(got, vec![0, 4, 4, 4, 4, 4, 8]);
    seen.sort();
    assert_eq!(seen, vec![0, 1, 2, 3, 4, 5, 6]);
}

#[test]
fn pop_then_reinsert_same_key_changes_nothing() {
    let keys = vec![3, 3, 7, 3, 11, 2, 2, 6];
    let mut a = BucketQueue::new(&keys, 4);
    let mut b = BucketQueue::new(&keys, 4);
    let (i, k) = a.pop().unwrap();
    a.reinsert(i, k);
    for _ in 0..keys.len() {
        assert_eq!(a.pop(), b.pop());
    }
}

#[test]
fn reinsert_keeps_order_over_many_steps() {
    let keys: Vec<u64> = (0..50u64).map(|i| (i * 37) % 101).collect();
    let mut q = BucketQueue::new(&keys, 8);
    let mut last = 0u64;
    for step in 0..500u64 {
        let (i, k) = q.pop().unwrap();
        assert!(k >= last);
        last = k;
        q.reinsert(i, k + (step * 13) % 29);
    }
    assert_eq!(q.len(), 50);
}

#[test]
fn rebase_shifts_keys_and_keeps_order() {
    let keys: Vec<u64> = vec![105, 101, 109, 103, 107, 102, 108, 100, 106, 104];
    let mut q = BucketQueue::new(&keys, 4);
    let mut plain = BucketQueue::new(&keys, 4);
    q.rebase(100);
    assert_eq!(q.min(), Some(0));
    assert_eq!(q.max(), Some(9));
    for _ in 0..keys.len() {
        let (_, a) = q.pop().unwrap();
        let (_, b) = plain.pop().unwrap();
        assert_eq!(a + 100, b);
    }
}

#[test]
fn single_bucket_queue() {
    let mut q = BucketQueue::new(&vec![9, 2, 5], 1);
    assert_eq!(q.pop(), Some((1, 2)));
    q.reinsert(1, 7);
    assert_eq!(q.pop(), Some((2, 5)));
    assert_eq!(q.pop(), Some((1, 7)));
    assert_eq!(q.pop(), Some((0, 9)));
}
