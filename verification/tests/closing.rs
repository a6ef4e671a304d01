use rockdown::closing::{next_close_prompt, CloseCandidate, ClosePrompt, EXPLORER_ID};

fn doc(id: u64, dirty: bool, text: &str) -> CloseCandidate {
    CloseCandidate { id, dirty, text: text.to_string() }
}

#[test]
fn window_close_asks_about_each_dirty_document_then_the_explorer() {
    let docs = vec![doc(1, false, "a"), doc(2, true, "b"), doc(3, true, "c")];
    let state = "dir\n7\nnotes.md".to_string();
    let mut discarded: Vec<(u64, String)> = Vec::new();
    assert_eq!(next_close_prompt(&docs, None, &discarded, true, &state), ClosePrompt::Document(1));
    discarded.push((2, "b".to_string()));
    assert_eq!(next_close_prompt(&docs, None, &discarded, true, &state), ClosePrompt::Document(2));
    discarded.push((3, "c".to_string()));
    assert_eq!(next_close_prompt(&docs, None, &discarded, true, &state), ClosePrompt::Explorer);
    discarded.push((EXPLORER_ID, state.clone()));
    assert_eq!(next_close_prompt(&docs, None, &discarded, true, &state), ClosePrompt::Close);
    // Staged changes edited after the discard are asked about again.
    let changed = "dir\n8\nnotes.md".to_string();
    assert_eq!(next_close_prompt(&docs, None, &discarded, true, &changed), ClosePrompt::Explorer);
}

#[test]
fn text_edited_after_a_discard_is_asked_about_again() {
    let discarded = vec![(2, "b".to_string())];
    let docs = vec![doc(2, true, "b2")];
    assert_eq!(next_close_prompt(&docs, None, &discarded, false, &String::new()), ClosePrompt::Document(0));
}

#[test]
fn closing_one_buffer_ignores_the_others_and_the_explorer() {
    let docs = vec![doc(1, true, "a"), doc(2, false, "b")];
    assert_eq!(next_close_prompt(&docs, Some(2), &Vec::new(), true, &String::new()), ClosePrompt::Close);
    assert_eq!(next_close_prompt(&docs, Some(1), &Vec::new(), true, &String::new()), ClosePrompt::Document(0));
    assert_eq!(next_close_prompt(&docs, None, &Vec::new(), false, &String::new()), ClosePrompt::Document(0));
    let clean = vec![doc(1, false, "a")];
    assert_eq!(next_close_prompt(&clean, None, &Vec::new(), false, &String::new()), ClosePrompt::Close);
}
