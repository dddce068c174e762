use waypanel::order::{sorted_positions, sorts_no_later};

#[test]
fn no_keys_no_positions() {
    assert_eq!(sorted_positions(&vec![]), Vec::<usize>::new());
}

#[test]
fn one_key_one_position() {
    assert_eq!(sorted_positions(&vec![(7, 7)]), vec![0]);
}

#[test]
fn priority_comes_before_order() {
    assert_eq!(sorted_positions(&vec![(5, 10), (1, 0)]), vec![1, 0]);
    assert_eq!(sorted_positions(&vec![(1, 99), (2, 0), (0, 50)]), vec![2, 0, 1]);
}

#[test]
fn order_breaks_ties_of_priority() {
    assert_eq!(sorted_positions(&vec![(3, 2), (3, 0), (3, 1)]), vec![1, 2, 0]);
}

#[test]
fn equal_keys_keep_their_places() {
    let keys = vec![(1, 1), (0, 0), (1, 1), (0, 0), (1, 1)];
    assert_eq!(sorted_positions(&keys), vec![1, 3, 0, 2, 4]);
}

#[test]
fn sorted_and_reversed_input() {
    assert_eq!(sorted_positions(&vec![(0, 0), (0, 1), (1, 0), (1, 1)]), vec![0, 1, 2, 3]);
    assert_eq!(sorted_positions(&vec![(1, 1), (1, 0), (0, 1), (0, 0)]), vec![3, 2, 1, 0]);
}

#[test]
fn extreme_keys() {
    assert_eq!(
        sorted_positions(&vec![(u32::MAX, 0), (0, u32::MAX), (u32::MAX, u32::MAX), (0, 0)]),
        vec![3, 1, 0, 2]
    );
}

#[test]
fn result_is_sorted_and_holds_each_position_once() {
    let keys: Vec<(u32, u32)> = (0..40u32).map(|i| ((i * 7) % 5, (i * 11) % 3)).collect();
    let order = sorted_positions(&keys);
    assert_eq!(order.len(), keys.len());
    let mut seen = vec![false; keys.len()];
    for place in order.iter() {
        assert!(!seen[*place]);
        seen[*place] = true;
    }
    for pair in order.windows(2) {
        let (a, b) = (pair[0], pair[1]);
        assert!(keys[a] < keys[b] || (keys[a] == keys[b] && a < b));
    }
}

#[test]
fn comparing_keys() {
    assert!(sorts_no_later((1, 5), (1, 5)));
    assert!(sorts_no_later((1, 5), (1, 6)));
    assert!(!sorts_no_later((1, 6), (1, 5)));
    assert!(sorts_no_later((0, 9), (1, 0)));
    assert!(!sorts_no_later((1, 0), (0, 9)));
}
