use search_tree::search::{
    search_2_level_tree_for_lower_bound, search_3_level_tree_for_lower_bound,
    search_for_lower_bound, search_single_node_tree_for_lower_bound, Leaf,
};

#[test]
fn search_in_base_case_height3() {
    let tree_of_height_3 = [1, 1, 4, 1, 2, 4, 6];

    let test_case = |of: i32, expected_index: i32, expected_leaf: i32, on_fail: &str| {
        assert_eq!(
            search_3_level_tree_for_lower_bound(of, &tree_of_height_3),
            Leaf { index: expected_index, leaf_number: expected_leaf },
            "{}",
            on_fail
        )
    };

    test_case(5, 5, 2, "Search for element in middle of Tree with height 3");

    test_case(6, 6, 3, "Search for largest element of Tree with height 3");

    test_case(1, 3, 0, "Search for smallest element of Tree with height 3");

    test_case(2, 4, 1, "Search for element not in tree in middle of range");

    test_case(2000, 6, 3, "Search for element not in tree which is greater than range");
}

#[test]
fn search_in_base_case_height2() {
    let tree_of_height_2 = [10, 10, 16];

    let test_case = |of: i32, expected_index: i32, expected_leaf: i32, on_fail: &str| {
        assert_eq!(
            search_2_level_tree_for_lower_bound(of, &tree_of_height_2),
            Leaf { index: expected_index, leaf_number: expected_leaf },
            "{}",
            on_fail
        )
    };

    test_case(16, 2, 1, "Search for largest element of Tree with height 2");

    test_case(10, 1, 0, "Search for smallest element of Tree with height 2");

    test_case(14, 1, 0, "Search for element not in tree within range");

    test_case(200, 2, 1, "Search for element not in tree greater than range");
}

#[test]
fn search_in_base_case_height1() {
    let tree_of_height_1 = [23];

    let test_case = |of: i32, expected_index: i32, expected_leaf: i32, on_fail: &str| {
        assert_eq!(
            search_single_node_tree_for_lower_bound(of, &tree_of_height_1),
            Leaf { index: expected_index, leaf_number: expected_leaf },
            "{}",
            on_fail
        )
    };

    test_case(23, 0, 0, "search for element");
    test_case(30, 0, 0, "search greater than element");
}

#[test]
fn test_search_for_elements_in_tree() {
    let tree = [0, 0, 4, 0, 0, 1, 2, 2, 3, 4, 4, 5, 6, 6, 7];

    let test_case = |of: i32, expected_index: i32, expected_leaf: i32, on_fail: &str| {
        assert_eq!(
            search_for_lower_bound(of, 4, &tree),
            Leaf { index: expected_index, leaf_number: expected_leaf },
            "{}",
            on_fail
        )
    };

    test_case(2, 7, 2, "searching for element in middle of tree");
    test_case(0, 4, 0, "searching for the smallest element");
    test_case(7, 14, 7, "searching for the greatest element");
}

#[test]
fn test_search_for_elements_not_in_tree() {
    let tree = [1, 1, 5, 1, 1, 2, 3, 3, 4, 5, 5, 57, 77, 77, 78];

    let test_case = |of: i32, expected_index: i32, expected_leaf: i32, on_fail: &str| {
        assert_eq!(
            search_for_lower_bound(of, 4, &tree),
            Leaf { index: expected_index, leaf_number: expected_leaf },
            "{}",
            on_fail
        )
    };

    test_case(58, 11, 5, "element in range but not in tree");
    test_case(800, 14, 7, "element greater than tree");
}

#[test]
fn search_in_tree_of_height_7() {
    let mut reserved_space: Vec<i32> = vec![0; 127];
    let leaves: Vec<i32> = (0..64).map(|k: i32| 3 * k).collect();
    let mut generator = search_tree::create::KeyCursor::new(leaves);
    assert_eq!(search_tree::create::layout(&mut reserved_space, &mut generator, 7), Ok(0));

    assert_eq!(
        search_for_lower_bound(100, 7, &reserved_space),
        Leaf { index: 75, leaf_number: 33 },
        "predecessor of a key that falls between two stored keys"
    );
    assert_eq!(
        search_for_lower_bound(99, 7, &reserved_space),
        Leaf { index: 75, leaf_number: 33 },
        "exact match on a stored key"
    );
}
