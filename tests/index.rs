use prefix_cache::index::PrefixIndex;

#[test]
fn longest_ancestor_prefers_the_longest_key() {
    let mut idx = PrefixIndex::new();
    idx.insert(&[1, 2], 0);
    idx.insert(&[1, 2, 3, 4], 1);
    idx.insert(&[1], 2);
    assert_eq!(idx.get_longest_ancestor(&[1, 2, 3, 4, 5]), Some((vec![1, 2, 3, 4], 1)));
    assert_eq!(idx.get_longest_ancestor(&[1, 2, 3]), Some((vec![1, 2], 0)));
    assert_eq!(idx.get_longest_ancestor(&[1, 9]), Some((vec![1], 2)));
    assert_eq!(idx.get_longest_ancestor(&[2]), None);
    assert_eq!(idx.get_longest_ancestor(&[]), None);
}

#[test]
fn tokens_sharing_leading_bytes_are_not_prefixes() {
    let mut idx = PrefixIndex::new();
    idx.insert(&[256], 0);
    assert_eq!(idx.get_longest_ancestor(&[257]), None);
    assert_eq!(idx.get_longest_ancestor(&[256, 1]), Some((vec![256], 0)));
}

#[test]
fn empty_index_has_no_ancestor() {
    let idx = PrefixIndex::new();
    assert_eq!(idx.len(), 0);
    assert_eq!(idx.get_longest_ancestor(&[1, 2]), None);
}

#[test]
fn exact_lookup_and_replacement() {
    let mut idx = PrefixIndex::new();
    idx.insert(&[5, 6], 3);
    assert_eq!(idx.get_exact(&[5, 6]), Some(3));
    assert_eq!(idx.get_exact(&[5]), None);
    idx.insert(&[5, 6], 4);
    assert_eq!(idx.get_exact(&[5, 6]), Some(4));
    assert_eq!(idx.len(), 1);
    let mut e = idx.entries();
    e.sort();
    assert_eq!(e, vec![(vec![5, 6], 4)]);
}

#[test]
fn entries_list_every_key_once() {
    let mut idx = PrefixIndex::new();
    idx.insert(&[3], 0);
    idx.insert(&[1, 2], 1);
    idx.insert(&[1], 2);
    let mut e = idx.entries();
    e.sort();
    assert_eq!(e, vec![(vec![1], 2), (vec![1, 2], 1), (vec![3], 0)]);
}
