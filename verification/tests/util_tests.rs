use search_tree::util::{is_odd, number_of_leaves_in_tree, size_of_tree_with_height};

#[test]
fn test_is_odd_helper() {
    assert_eq!(is_odd(129), true, "Test is_odd on an odd number");
    assert_eq!(is_odd(524), false, "Test is_odd on an even number");
}

#[test]
fn tree_size_formula() {
    assert_eq!(size_of_tree_with_height(1), 1);
    assert_eq!(size_of_tree_with_height(2), 3);
    assert_eq!(size_of_tree_with_height(4), 15);
    assert_eq!(size_of_tree_with_height(7), 127);
    assert_eq!(size_of_tree_with_height(30), 0x3fffffff);
}

#[test]
fn leaf_count_formula() {
    assert_eq!(number_of_leaves_in_tree(1), 1);
    assert_eq!(number_of_leaves_in_tree(2), 2);
    assert_eq!(number_of_leaves_in_tree(7), 64);
    assert_eq!(number_of_leaves_in_tree(30), 0x20000000);
}
