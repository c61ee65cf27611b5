use dcharmap::notree::Notree;

fn sorted(mut v: Vec<usize>) -> Vec<usize> {
    v.sort();
    v
}

fn tree() -> Notree<usize> {
    let mut t = Notree::new();
    t.add(&vec!['a', 'd'], 0);
    t.add(&vec!['m', 'o'], 1);
    t.add(&vec!['i', 's'], 2);
    t.add(&vec!['o', 'p'], 3);
    t.add(&vec![], 4);
    t.add(&vec!['a', 'd'], 5);
    t
}

#[test]
fn no_values_without_exclusion_returns_all() {
    assert_eq!(sorted(tree().no_values(&vec![])), vec![0, 1, 2, 3, 4, 5]);
}

#[test]
fn no_values_excludes_letters() {
    assert_eq!(sorted(tree().no_values(&vec!['o'])), vec![0, 2, 4, 5]);
    assert_eq!(sorted(tree().no_values(&vec!['a', 's'])), vec![1, 3, 4]);
}

#[test]
fn no_values_excludes_letter_deep_in_key() {
    // 'p' is the second letter of the key of 3 only.
    assert_eq!(sorted(tree().no_values(&vec!['p'])), vec![0, 1, 2, 4, 5]);
    assert_eq!(sorted(tree().no_values(&vec!['d', 'p', 's'])), vec![1, 4]);
}

#[test]
fn no_values_to_appends() {
    let mut res = vec![9];
    tree().no_values_to(&vec!['a', 'i', 'm', 'o'], &mut res);
    assert_eq!(res[0], 9);
    assert_eq!(sorted(res), vec![4, 9]);
}

#[test]
fn empty_tree_has_no_values() {
    let t: Notree<usize> = Notree::new();
    assert!(t.no_values(&vec![]).is_empty());
}

#[test]
fn one_value_under_no_letters() {
    let mut t: Notree<usize> = Notree::new();
    t.add(&vec![], 5);
    assert_eq!(t.no_values(&vec![]), vec![5]);
}

#[test]
fn each_add_stores_one_copy() {
    let mut t: Notree<usize> = Notree::new();
    t.add(&vec!['a', 'c'], 1);
    t.add(&vec!['b'], 2);
    assert_eq!(t.no_values(&vec!['c']), vec![2]);
    assert_eq!(t.no_values(&vec!['a']), vec![2]);
    assert_eq!(t.no_values(&vec![]), vec![1, 2]);
}
