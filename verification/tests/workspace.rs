use rockdown::workspace::{theme_key, ActionStep, Overlays, Pane, ThemeKey, UiMode};

fn dev() -> Overlays {
    Overlays {
        ui_mode: UiMode::Dev,
        pane: Pane::Editor,
        explorer_visible: true,
        terminal_visible: false,
        ui_mode_picker: None,
        writer_tabs_open: false,
        writer_chrome_visible: true,
        dev_explorer: false,
        dev_terminal: false,
        help: false,
        help_section: 0,
        theme_picker: false,
        outline_picker: false,
    }
}

#[test]
fn open_mode_picker_swallows_other_actions() {
    let mut o = dev();
    assert_eq!(o.route_action("ui-mode"), ActionStep::Done);
    assert_eq!(o.ui_mode_picker, Some(UiMode::Dev));
    assert_eq!(o.route_action("save"), ActionStep::Ignored);
    assert_eq!(o.route_action("help"), ActionStep::Ignored);
    assert!(!o.help);
    assert_eq!(o.route_action("ui-mode"), ActionStep::Done);
    assert_eq!(o.ui_mode_picker, None);
    assert_eq!(o.route_action("save"), ActionStep::Dispatch);
}

#[test]
fn help_toggles_and_blocks_editing_actions() {
    let mut o = dev();
    o.outline_picker = true;
    assert_eq!(o.route_action("help"), ActionStep::Done);
    assert!(o.help);
    assert!(!o.outline_picker);
    assert_eq!(o.route_action("undo"), ActionStep::Ignored);
    assert_eq!(o.route_action("themes"), ActionStep::Dispatch);
    assert_eq!(o.route_action("help"), ActionStep::Done);
    assert!(!o.help);
    assert_eq!(o.route_action("undo"), ActionStep::Dispatch);
}

#[test]
fn theme_picker_closes_only_on_its_own_action() {
    let mut o = dev();
    o.theme_picker = true;
    assert_eq!(o.route_action("save"), ActionStep::Ignored);
    assert!(o.theme_picker);
    assert_eq!(o.route_action("themes"), ActionStep::Done);
    assert!(!o.theme_picker);
}

#[test]
fn writer_panel_actions_close_the_other_overlays() {
    let mut o = dev();
    o.ui_mode = UiMode::Writer;
    o.pane = Pane::Terminal;
    o.theme_picker = true;
    o.help = true;
    assert_eq!(o.route_action("outline"), ActionStep::Dispatch);
    assert!(!o.theme_picker);
    assert!(!o.help);
    assert_eq!(o.pane, Pane::Editor);
    assert!(!o.terminal_visible);
    assert_eq!(o.route_action("tab-bar"), ActionStep::Done);
    assert!(o.writer_tabs_open);
    assert_eq!(o.route_action("bold"), ActionStep::Ignored);
    assert_eq!(o.route_action("editor"), ActionStep::Done);
    assert!(!o.writer_tabs_open);
    assert_eq!(o.route_action("status-bar"), ActionStep::Done);
    assert!(!o.writer_chrome_visible);
}

#[test]
fn writer_and_back_restores_the_side_panes() {
    let mut o = dev();
    o.terminal_visible = true;
    o.pane = Pane::Explorer;
    o.set_ui_mode(UiMode::Writer, true);
    assert_eq!(o.ui_mode, UiMode::Writer);
    assert!(!o.explorer_visible && !o.terminal_visible);
    assert_eq!(o.pane, Pane::Editor);
    o.set_ui_mode(UiMode::Dev, true);
    assert!(o.explorer_visible && o.terminal_visible);
    o.set_ui_mode(UiMode::Writer, false);
    o.set_ui_mode(UiMode::Dev, false);
    assert!(o.explorer_visible && !o.terminal_visible);
}

#[test]
fn mode_picker_and_help_keys() {
    let mut o = dev();
    o.toggle_ui_mode_picker();
    o.mode_picker_key("down", true);
    assert_eq!(o.ui_mode_picker, Some(UiMode::Writer));
    o.mode_picker_key("x", true);
    assert_eq!(o.ui_mode_picker, Some(UiMode::Writer));
    o.mode_picker_key("enter", true);
    assert_eq!(o.ui_mode, UiMode::Writer);
    assert_eq!(o.ui_mode_picker, None);
    o.toggle_ui_mode_picker();
    o.mode_picker_key("escape", true);
    assert_eq!(o.ui_mode_picker, None);
    assert_eq!(o.ui_mode, UiMode::Writer);

    let mut h = dev();
    h.help = true;
    h.help_key("left", 4);
    assert_eq!(h.help_section, 3);
    h.help_key("tab", 4);
    h.help_key("right", 4);
    assert_eq!(h.help_section, 1);
    h.help_key("q", 4);
    assert!(!h.help);
}

#[test]
fn theme_picker_keys_preview_with_wrap() {
    assert_eq!(theme_key(0, 5, "up"), ThemeKey::Preview(4));
    assert_eq!(theme_key(4, 5, "j"), ThemeKey::Preview(0));
    assert_eq!(theme_key(2, 5, "home"), ThemeKey::Preview(0));
    assert_eq!(theme_key(2, 5, "end"), ThemeKey::Preview(4));
    assert_eq!(theme_key(2, 5, "escape"), ThemeKey::Cancel);
    assert_eq!(theme_key(2, 5, "enter"), ThemeKey::Keep);
    assert_eq!(theme_key(2, 5, "x"), ThemeKey::Nothing);
}

#[test]
fn side_panes_toggle_with_focus() {
    let mut o = dev();
    o.toggle_explorer();
    assert!(!o.explorer_visible);
    assert_eq!(o.pane, Pane::Editor);
    o.toggle_explorer();
    assert!(o.explorer_visible);
    assert_eq!(o.pane, Pane::Explorer);
    o.toggle_explorer();
    assert!(!o.explorer_visible);
    assert_eq!(o.pane, Pane::Editor);

    o.toggle_terminal(true);
    assert!(o.terminal_visible);
    assert_eq!(o.pane, Pane::Terminal);
    o.toggle_terminal(false);
    assert!(!o.terminal_visible);
    assert_eq!(o.pane, Pane::Editor);
    o.toggle_terminal(false);
    assert_eq!(o.pane, Pane::Terminal);
    o.terminal_exited();
    assert!(!o.terminal_visible);
    assert_eq!(o.pane, Pane::Editor);
}
