use search_tree::create::KeyCursor;
use search_tree::search::SearchTreeIndex;
use search_tree::{SearchTree, SearchTreeError};

#[test]
fn create_and_search() {
    let leaves: Vec<i32> = (0..32).chain((40..=360).step_by(10)).collect();
    let search_tree = SearchTree::new(KeyCursor::new(leaves), 64).unwrap();

    assert_eq!(
        search_tree.search(39),
        SearchTreeIndex::Leaf { index: 70, leaf_number: 31 },
        "Searching for element in tree's span, but not in tree. Expecting lower bound"
    );
}

#[test]
fn round_trip_over_eight_leaves() {
    let leaves: Vec<i32> = (0..8).collect();
    let search_tree = SearchTree::new(KeyCursor::new(leaves), 8).unwrap();

    let expected_indexes: [i32; 8] = [4, 5, 7, 8, 10, 11, 13, 14];
    let mut query: i32 = 0;
    while query < 8 {
        assert_eq!(
            search_tree.search(query),
            SearchTreeIndex::Leaf {
                index: expected_indexes[query as usize],
                leaf_number: query,
            },
            "querying each constructed leaf must return its own rank"
        );
        query += 1;
    }
}

#[test]
fn scenario_eight_leaves() {
    let leaves: Vec<i32> = vec![0, 1, 2, 3, 4, 5, 6, 7];
    let search_tree = SearchTree::new(KeyCursor::new(leaves), 8).unwrap();

    assert_eq!(search_tree.search(2), SearchTreeIndex::Leaf { index: 7, leaf_number: 2 });
    assert_eq!(search_tree.search(7), SearchTreeIndex::Leaf { index: 14, leaf_number: 7 });
}

#[test]
fn single_leaf_tree_answers_every_query_at_or_above_it() {
    let search_tree = SearchTree::new(KeyCursor::new(vec![23]), 1).unwrap();

    assert_eq!(search_tree.search(23), SearchTreeIndex::Leaf { index: 0, leaf_number: 0 });
    assert_eq!(search_tree.search(1000), SearchTreeIndex::Leaf { index: 0, leaf_number: 0 });
    assert_eq!(search_tree.search(22), SearchTreeIndex::NotInTree);
}

#[test]
fn query_below_the_minimum_is_not_in_tree() {
    let leaves: Vec<i32> = vec![10, 20, 30, 40];
    let search_tree = SearchTree::new(KeyCursor::new(leaves), 4).unwrap();

    assert_eq!(search_tree.search(9), SearchTreeIndex::NotInTree);
    assert_eq!(search_tree.search(-100), SearchTreeIndex::NotInTree);
    assert_eq!(search_tree.search(10), SearchTreeIndex::Leaf { index: 3, leaf_number: 0 });
}

#[test]
fn leaf_count_must_be_a_power_of_two() {
    let five: Vec<i32> = vec![1, 2, 3, 4, 5];
    assert_eq!(
        SearchTree::new(KeyCursor::new(five), 5).unwrap_err(),
        SearchTreeError::InvalidLeafCount
    );

    let none: Vec<i32> = vec![];
    assert_eq!(
        SearchTree::new(KeyCursor::new(none), 0).unwrap_err(),
        SearchTreeError::InvalidLeafCount
    );
}

#[test]
fn too_short_a_source_is_reported() {
    let five: Vec<i32> = vec![1, 2, 3, 4, 5];
    assert_eq!(
        SearchTree::new(KeyCursor::new(five), 8).unwrap_err(),
        SearchTreeError::InsufficientInput
    );
}
