use rockdown::outline::Heading;
use rockdown::picker::{step_selection, OutlinePicker};

fn heading(row: usize, title: &str) -> Heading {
    Heading {
        row,
        level: 1,
        title: title.to_string(),
        anchor: title.to_lowercase(),
    }
}

fn sample() -> Vec<Heading> {
    vec![heading(0, "Intro"), heading(5, "Usage"), heading(10, "Installation")]
}

#[test]
fn selection_wraps_at_both_ends() {
    assert_eq!(step_selection(0, 3, true), 2);
    assert_eq!(step_selection(2, 3, false), 0);
    assert_eq!(step_selection(1, 3, true), 0);
    assert_eq!(step_selection(1, 3, false), 2);
    assert_eq!(step_selection(0, 1, false), 0);
    for selected in 0..4 {
        for up in [true, false] {
            assert_eq!(step_selection(step_selection(selected, 4, up), 4, !up), selected);
        }
    }
}

#[test]
fn opening_selects_the_heading_above_the_cursor() {
    let headings = sample();
    let picker = OutlinePicker::open(&headings, 6);
    assert_eq!(picker.matches, vec![0, 1, 2]);
    assert_eq!(picker.selected, 1);
    assert_eq!(picker.query, "");
    assert_eq!(picker.col, 0);
    assert_eq!(OutlinePicker::open(&headings, 0).selected, 0);
    assert_eq!(OutlinePicker::open(&headings, 99).selected, 2);
    let empty = OutlinePicker::open(&Vec::new(), 3);
    assert!(empty.matches.is_empty());
    assert_eq!(empty.selected, 0);
    assert_eq!(empty.chosen(), None);
}

#[test]
fn typing_filters_and_enter_picks_the_selected_match() {
    let headings = sample();
    let mut picker = OutlinePicker::open(&headings, 6);
    picker.replace(None, "IN\n", &headings);
    assert_eq!(picker.query, "IN");
    assert_eq!(picker.col, 2);
    assert_eq!(picker.matches, vec![0, 2]);
    assert_eq!(picker.selected, 0);
    picker.step(false);
    assert_eq!(picker.chosen(), Some(2));
    picker.step(false);
    assert_eq!(picker.chosen(), Some(0));
    picker.step(true);
    assert_eq!(picker.chosen(), Some(2));
}

#[test]
fn cursor_keys_move_by_grapheme_cluster() {
    let headings = sample();
    let mut picker = OutlinePicker::open(&headings, 0);
    picker.replace(None, "he\u{301}llo", &headings);
    assert_eq!(picker.col, 7);
    for expected in [6, 5, 4, 1, 0, 0] {
        assert!(picker.edit_key("left", &headings));
        assert_eq!(picker.col, expected);
    }
    assert!(picker.edit_key("right", &headings));
    assert!(picker.edit_key("right", &headings));
    assert_eq!(picker.col, 4);
    assert!(picker.edit_key("end", &headings));
    assert_eq!(picker.col, 7);
    assert!(picker.edit_key("home", &headings));
    assert_eq!(picker.col, 0);
    assert!(!picker.edit_key("x", &headings));
    assert_eq!(picker.query, "he\u{301}llo");
}

#[test]
fn deleting_removes_whole_clusters_and_refilters() {
    let headings = sample();
    let mut picker = OutlinePicker::open(&headings, 0);
    picker.replace(None, "ue\u{301}s", &headings);
    assert!(picker.matches.is_empty());
    assert!(picker.edit_key("left", &headings));
    assert_eq!(picker.col, 4);
    assert!(picker.edit_key("backspace", &headings));
    assert_eq!(picker.query, "us");
    assert_eq!(picker.col, 1);
    assert_eq!(picker.matches, vec![1]);
    assert!(picker.edit_key("delete", &headings));
    assert_eq!(picker.query, "u");
    assert_eq!(picker.col, 1);
    assert_eq!(picker.matches, vec![1]);
    assert!(picker.edit_key("delete", &headings));
    assert_eq!(picker.query, "u");
    assert!(picker.edit_key("home", &headings));
    assert!(picker.edit_key("backspace", &headings));
    assert_eq!(picker.query, "u");
    assert_eq!(picker.col, 0);
}

#[test]
fn input_method_ranges_are_utf16() {
    let headings = sample();
    let mut picker = OutlinePicker::open(&headings, 0);
    picker.replace(None, "a😀c", &headings);
    assert_eq!(picker.col, 6);
    picker.replace(Some((1, 3)), "X\r\n", &headings);
    assert_eq!(picker.query, "aXc");
    assert_eq!(picker.col, 2);
    picker.replace(Some((0, 0)), "", &headings);
    assert_eq!(picker.query, "aXc");
    assert_eq!(picker.col, 0);
}
