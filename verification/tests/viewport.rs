use rockdown::viewport::{clamp_top, follow_top, half_page_top, line_number_row};

#[test]
fn the_top_follows_the_cursor_into_view() {
    assert_eq!(follow_top(10, 12, 5), 10);
    assert_eq!(follow_top(10, 4, 5), 4);
    assert_eq!(follow_top(10, 15, 5), 11);
    assert_eq!(follow_top(0, 0, 1), 0);
    assert_eq!(follow_top(3, 2, 1), 2);
    assert_eq!(follow_top(0, 30, 1), 30);
    for top in 0..8 {
        for row in 0..20 {
            for rows in 1..6 {
                let new_top = follow_top(top, row, rows);
                assert!(new_top <= row && row < new_top + rows);
            }
        }
    }
}

#[test]
fn half_pages_and_line_numbers_stay_in_the_text() {
    assert_eq!(clamp_top(7, 5), 4);
    assert_eq!(clamp_top(2, 5), 2);
    assert_eq!(half_page_top(2, 10, true, 50), 12);
    assert_eq!(half_page_top(45, 10, true, 50), 49);
    assert_eq!(half_page_top(usize::MAX - 1, 10, true, usize::MAX), usize::MAX - 1);
    assert_eq!(half_page_top(5, 10, false, 50), 0);
    assert_eq!(half_page_top(25, 10, false, 50), 15);
    assert_eq!(line_number_row(0, 10), 0);
    assert_eq!(line_number_row(1, 10), 0);
    assert_eq!(line_number_row(7, 10), 6);
    assert_eq!(line_number_row(99, 10), 9);
}
