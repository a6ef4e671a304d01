use rockdown::buffer::Buffer;

#[test]
fn search_moves_to_the_next_match_and_wraps_around() {
    let mut b = Buffer::new("alpha beta\ngamma alpha\n");
    assert!(b.find_next("alpha", true));
    assert_eq!((b.row, b.col), (0, 0));
    assert!(b.find_next("alpha", false));
    assert_eq!((b.row, b.col), (1, 6));
    assert!(b.find_next("alpha", false));
    assert_eq!((b.row, b.col), (0, 0));
    assert!(b.find_next("beta", false));
    assert_eq!((b.row, b.col), (0, 6));
}

#[test]
fn a_missing_pattern_or_empty_query_leaves_the_caret() {
    let mut b = Buffer::new("one\ntwo");
    b.row = 1;
    b.col = 1;
    assert!(!b.find_next("zeta", true));
    assert_eq!((b.row, b.col), (1, 1));
    assert!(!b.find_next("", false));
    assert_eq!((b.row, b.col), (1, 1));
}

#[test]
fn repeated_search_steps_over_a_whole_grapheme_cluster() {
    let mut b = Buffer::new("e\u{301}x\u{1f642}x");
    assert!(b.find_next("x", false));
    assert_eq!((b.row, b.col), (0, 3));
    assert!(b.find_next("x", false));
    assert_eq!((b.row, b.col), (0, 8));
    assert!(b.find_next("x", false));
    assert_eq!((b.row, b.col), (0, 3));
    assert!(b.find_next("e\u{301}", true));
    assert_eq!((b.row, b.col), (0, 0));
}

#[test]
fn restored_cursors_land_on_a_line_and_a_cluster_start() {
    let mut b = Buffer::new("one\nae\u{301}b");
    b.restore_cursor(9, 3);
    assert_eq!((b.row, b.col), (1, 1));
    b.restore_cursor(0, 2);
    assert_eq!((b.row, b.col), (0, 2));
    b.restore_cursor(1, 99);
    assert_eq!((b.row, b.col), (1, 4));
}
