use zero_partition::arrays::push_zero_start;
use zero_partition::counter::Counter;

fn check_zero_prefix(xs: Vec<i32>) -> bool {
    let mut xs = xs.clone();
    let i = push_zero_start(&mut xs);
    i <= xs.len() && (i == xs.len() && xs.iter().all(|e| *e == 0))
        || (0..xs.len()).all(|n| (xs[n] == 0 && n < i) || (xs[n] != 0 && n >= i))
}

fn check_keep_elements(xs: Vec<i32>) -> bool {
    let counter = Counter::from(xs.clone());
    let mut xs = xs.clone();
    let _ = push_zero_start(&mut xs);
    let after_counter = Counter::from(xs.clone());
    counter == after_counter
}

fn samples() -> Vec<Vec<i32>> {
    vec![
        vec![],
        vec![0],
        vec![7],
        vec![0, 0, 0, 0],
        vec![1, 2, 3],
        vec![0, 1, 0, 2, 5, 0, 10],
        vec![3, 0, -4, 0, 0, i32::MIN, i32::MAX, 0],
        vec![5, 5, 0, 5, 0, -1, 0, 0, 2],
    ]
}

#[test]
fn prop_zero_prefix() {
    for xs in samples() {
        assert!(check_zero_prefix(xs));
    }
}

#[test]
fn prop_keep_elements() {
    for xs in samples() {
        assert!(check_keep_elements(xs));
    }
}

#[test]
fn scenario_mixed_sequence() {
    let mut xs = vec![0, 1, 0, 2, 5, 0, 10];
    let i = push_zero_start(&mut xs);
    assert_eq!(i, 3);
    assert!(xs[..3].iter().all(|e| *e == 0));
    assert!(xs[3..].iter().all(|e| *e != 0));
    let c = Counter::from(xs.clone());
    assert_eq!(*c.get(&0), 3);
    assert_eq!(*c.get(&1), 1);
    assert_eq!(*c.get(&2), 1);
    assert_eq!(*c.get(&5), 1);
    assert_eq!(*c.get(&10), 1);
    assert!(c == Counter::from(vec![0, 0, 0, 1, 2, 5, 10]));
}

#[test]
fn all_zero_collapse() {
    let mut xs = vec![0, 0, 0, 0, 0];
    let i = push_zero_start(&mut xs);
    assert_eq!(i, 5);
    assert_eq!(xs, vec![0, 0, 0, 0, 0]);
}

#[test]
fn no_zero_stays() {
    let mut xs = vec![4, -2, 9];
    let i = push_zero_start(&mut xs);
    assert_eq!(i, 0);
    assert_eq!(xs, vec![4, -2, 9]);
}

#[test]
fn empty_input_stability() {
    let mut xs: Vec<i32> = vec![];
    let i = push_zero_start(&mut xs);
    assert_eq!(i, 0);
    assert!(xs.is_empty());
}

#[test]
fn repartition_is_identity() {
    let mut xs = vec![3, 0, 8, 0, 0, 1, -6];
    let i = push_zero_start(&mut xs);
    let once = xs.clone();
    let j = push_zero_start(&mut xs);
    assert_eq!(i, 3);
    assert_eq!(j, i);
    assert_eq!(xs, once);
}

#[test]
fn partitioned_input_unchanged() {
    let mut xs = vec![0, 0, 2, 1, 3];
    let i = push_zero_start(&mut xs);
    assert_eq!(i, 2);
    assert_eq!(xs, vec![0, 0, 2, 1, 3]);
}

#[test]
fn non_zero_order_not_kept() {
    let mut xs = vec![1, 2, 0];
    let i = push_zero_start(&mut xs);
    assert_eq!(i, 1);
    assert_eq!(xs, vec![0, 2, 1]);
}
