use extension_fixer::events::Batcher;

#[test]
fn returns_none_until_full() {
    let mut batcher = Batcher::new(3);
    assert!(batcher.push(1).is_none());
    assert!(batcher.push(2).is_none());
    assert_eq!(batcher.push(3), Some(vec![1, 2, 3]));
}

#[test]
fn resets_after_a_full_batch() {
    let mut batcher = Batcher::new(2);
    assert_eq!(batcher.push(1), None);
    assert_eq!(batcher.push(2), Some(vec![1, 2]));
    assert_eq!(batcher.push(3), None);
    assert_eq!(batcher.flush(), vec![3]);
}

#[test]
fn flush_on_empty_buffer_returns_empty() {
    let mut batcher: Batcher<i32> = Batcher::new(5);
    assert_eq!(batcher.flush(), Vec::<i32>::new());
}

// --- further cases ---

#[test]
fn batches_keep_every_item_in_order() {
    let mut batcher = Batcher::new(4);
    let mut seen = Vec::new();
    for i in 0..23 {
        if let Some(batch) = batcher.push(i) {
            assert_eq!(batch.len(), 4);
            seen.extend(batch);
        }
    }
    let rest = batcher.flush();
    assert!(rest.len() < 4);
    seen.extend(rest);
    assert_eq!(seen, (0..23).collect::<Vec<_>>());
}

#[test]
fn size_zero_hands_back_every_item_alone() {
    let mut batcher = Batcher::new(0);
    assert_eq!(batcher.push('a'), Some(vec!['a']));
    assert_eq!(batcher.push('b'), Some(vec!['b']));
    assert_eq!(batcher.flush(), Vec::<char>::new());
}

#[test]
fn size_one_hands_back_every_item_alone() {
    let mut batcher = Batcher::new(1);
    assert_eq!(batcher.push(5), Some(vec![5]));
    assert_eq!(batcher.flush(), Vec::<i32>::new());
}
