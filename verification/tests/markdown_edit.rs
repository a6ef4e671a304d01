use rockdown::markdown_edit::{enter_edit, EnterEdit};

#[test]
fn continues_markers_and_resets_tasks() {
    for (text, expected) in [
        ("- 世界", "\n- "),
        ("  + nested", "\n  + "),
        ("9. item", "\n10. "),
        ("2) item", "\n3) "),
        ("> quote", "\n> "),
        ("> > deep", "\n> > "),
        ("> - [X] done", "\n> - [ ] "),
        ("- [ ] task", "\n- [ ] "),
    ] {
        assert_eq!(
            enter_edit(text, text.len()),
            Some(EnterEdit::Continue(expected.into()))
        );
    }
}

#[test]
fn exits_one_empty_container_without_inserting_a_line() {
    for (text, from) in [("- ", 0), ("> - [ ] ", 2), ("> > ", 2), ("  - ", 2)] {
        assert_eq!(
            enter_edit(text, text.len()),
            Some(EnterEdit::Exit {
                from,
                to: text.len()
            })
        );
    }
}

#[test]
fn ordinary_text_and_partial_prefixes_are_literal() {
    for text in ["text", "---", "*emphasis*", "1234567890. long", "-no space"] {
        assert_eq!(enter_edit(text, text.len()), None);
    }
    assert_eq!(enter_edit("- [ ] task", 3), None);
    assert_eq!(enter_edit("- text", 0), None);
    assert_eq!(
        enter_edit("- first second", 7),
        Some(EnterEdit::Continue("\n- ".into()))
    );
}

#[test]
fn enter_edit_rejects_carets_inside_a_character() {
    // Byte 1 falls inside the two-byte encoding of 'é'.
    assert_eq!(enter_edit("é", 1), None);
    assert_eq!(enter_edit("- x", 10), None);
}

#[test]
fn enter_edit_keeps_task_spacing_and_ignores_unicode_blank_tail() {
    assert_eq!(
        enter_edit("- [x]   body", 12),
        Some(EnterEdit::Continue("\n- [ ]   ".into()))
    );
    // An ideographic space after the marker counts as an empty item.
    let line = "- \u{3000}";
    assert_eq!(
        enter_edit(line, line.len()),
        Some(EnterEdit::Exit { from: 0, to: line.len() })
    );
    assert_eq!(
        enter_edit("999999999. x", 12),
        Some(EnterEdit::Continue("\n1000000000. ".into()))
    );
}
