use search_tree::create::{layout, KeyCursor};

#[test]
fn base_case_layout_tree_of_height_1() {
    let mut reserved_space: Vec<i32> = vec![1];
    let mut generator = KeyCursor::new(vec![6]);
    assert_eq!(layout(&mut reserved_space, &mut generator, 1), Ok(6));

    assert_eq!(reserved_space, vec![6]);
}

#[test]
fn base_case_layout_tree_of_height_3() {
    let mut reserved_space: Vec<i32> = vec![0; 7];
    let leafs: Vec<i32> = vec![0, 1, 2, 3];
    let mut generator = KeyCursor::new(leafs);

    assert_eq!(layout(&mut reserved_space, &mut generator, 3), Ok(0));

    assert_eq!(reserved_space, vec![0, 0, 2, 0, 1, 2, 3]);
}

#[test]
fn recursive_case_layout_tree_of_height_4() {
    let mut reserved_space: Vec<i32> = vec![0; 15];
    let leafs: Vec<i32> = vec![0, 1, 2, 3, 4, 5, 6, 7];
    let mut generator = KeyCursor::new(leafs);

    assert_eq!(layout(&mut reserved_space, &mut generator, 4), Ok(0));

    assert_eq!(reserved_space, vec![0, 0, 4, 0, 0, 1, 2, 2, 3, 4, 4, 5, 6, 6, 7]);
}

#[test]
fn recursive_case_layout_tree_of_height_7() {
    let mut reserved_space: Vec<i32> = vec![0; 127];
    let leaves: Vec<i32> = (0..64).collect();

    let expected: Vec<i32> = vec![
        0, 0, 32,
        0, 0, 8,
        16, 16, 24,
        32, 32, 40,
        48, 48, 56,
        0, 0, 2,
        0, 1, 2, 3,
        4, 4, 6,
        4, 5, 6, 7,
        8, 8, 10,
        8, 9, 10, 11,
        12, 12, 14,
        12, 13, 14, 15,
        16, 16, 18,
        16, 17, 18, 19,
        20, 20, 22,
        20, 21, 22, 23,
        24, 24, 26,
        24, 25, 26, 27,
        28, 28, 30,
        28, 29, 30, 31,
        32, 32, 34,
        32, 33, 34, 35,
        36, 36, 38,
        36, 37, 38, 39,
        40, 40, 42,
        40, 41, 42, 43,
        44, 44, 46,
        44, 45, 46, 47,
        48, 48, 50,
        48, 49, 50, 51,
        52, 52, 54,
        52, 53, 54, 55,
        56, 56, 58,
        56, 57, 58, 59,
        60, 60, 62,
        60, 61, 62, 63,
    ];

    let mut generator = KeyCursor::new(leaves);
    assert_eq!(layout(&mut reserved_space, &mut generator, 7), Ok(0));

    assert_eq!(reserved_space, expected);
}

#[test]
fn layout_tree_of_height_2_sets_root_to_first_leaf() {
    let mut reserved_space: Vec<i32> = vec![0; 3];
    let mut generator = KeyCursor::new(vec![10, 16]);

    assert_eq!(layout(&mut reserved_space, &mut generator, 2), Ok(10));

    assert_eq!(reserved_space, vec![10, 10, 16]);
}

#[test]
fn layout_consumes_exactly_the_leaf_count() {
    let mut reserved_space: Vec<i32> = vec![0; 3];
    let mut generator = KeyCursor::new(vec![10, 16, 99]);

    assert_eq!(layout(&mut reserved_space, &mut generator, 2), Ok(10));

    assert_eq!(generator.next(), Some(99));
}

#[test]
fn layout_fails_when_the_source_runs_out() {
    let mut reserved_space: Vec<i32> = vec![0; 7];
    let mut generator = KeyCursor::new(vec![0, 1, 2]);

    assert_eq!(layout(&mut reserved_space, &mut generator, 3), Err(()));
}
