use rockdown::keyboard::{key, named_key, text, KeyStroke};

fn stroke(key: &str, key_char: Option<&str>) -> KeyStroke {
    KeyStroke {
        key: key.to_string(),
        key_char: key_char.map(str::to_string),
        control: false,
        platform: false,
        alt: false,
    }
}

#[test]
fn named_controls_do_not_mask_composed_text_or_tab_commands() {
    let tab = stroke("tab", Some("\t"));
    assert!(text(&tab).is_none());
    assert_eq!(key(&tab), "tab");
    let composed = stroke("a", Some("界"));
    assert_eq!(text(&composed), Some("界".to_string()));
    let named_return = stroke("return", Some("\r"));
    assert_eq!(key(&named_return), "enter");
    assert!(text(&named_return).is_none());
}

#[test]
fn native_return_is_a_command_not_text() {
    let event = stroke("enter", Some("\n"));
    assert!(text(&event).is_none());
    assert_eq!(key(&event), "enter");
}

#[test]
fn modifiers_suppress_committed_text() {
    let mut s = stroke("a", Some("a"));
    assert_eq!(text(&s), Some("a".to_string()));
    s.control = true;
    assert!(text(&s).is_none());
    s.control = false;
    s.alt = true;
    assert!(text(&s).is_none());
}

#[test]
fn control_characters_fall_back_to_the_key_name() {
    let s = stroke("x", Some("\u{1b}"));
    assert_eq!(key(&s), "x");
    assert!(text(&s).is_none());
    assert_eq!(named_key(&"pagedown".to_string()), Some("pagedown".to_string()));
    assert_eq!(named_key(&"shift".to_string()), None);
}
