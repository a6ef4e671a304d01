use rockdown::key_routing::{buffer_key, route_key, window_key, KeyPress, KeyRoute, KeyState, WindowCommand};
use rockdown::workspace::{Overlays, Pane, UiMode};

fn state() -> KeyState {
    KeyState {
        overlays: Overlays {
            ui_mode: UiMode::Dev,
            pane: Pane::Editor,
            explorer_visible: true,
            terminal_visible: false,
            ui_mode_picker: None,
            writer_tabs_open: false,
            writer_chrome_visible: true,
            dev_explorer: false,
            dev_terminal: false,
            help: false,
            help_section: 0,
            theme_picker: false,
            outline_picker: false,
        },
        marked: false,
        command_open: false,
        window_prefix: false,
        normal_mode: true,
        insert_mode: false,
        markdown: true,
        caret_row_laid_out: true,
    }
}

fn press(key: &str) -> KeyPress {
    KeyPress {
        key: key.to_string(),
        raw: key.to_string(),
        control: false,
        alt: false,
        platform: false,
        clipboard: false,
        text: key.chars().count() == 1,
    }
}

#[test]
fn command_q_quits_before_any_overlay() {
    let mut s = state();
    s.overlays.help = true;
    let mut p = press("q");
    p.platform = true;
    assert_eq!(route_key(&s, &p), KeyRoute::Quit);
    p.platform = false;
    assert_eq!(route_key(&s, &p), KeyRoute::Help);
}

#[test]
fn overlays_take_keys_in_order() {
    let mut s = state();
    s.overlays.ui_mode_picker = Some(UiMode::Writer);
    s.overlays.help = true;
    assert_eq!(route_key(&s, &press("escape")), KeyRoute::ModePicker);
    s.overlays.ui_mode_picker = None;
    s.overlays.writer_tabs_open = true;
    assert_eq!(route_key(&s, &press("j")), KeyRoute::WriterTabs);
    s.overlays.writer_tabs_open = false;
    let mut paste = press("v");
    paste.control = true;
    paste.clipboard = true;
    assert_eq!(route_key(&s, &paste), KeyRoute::Help);
    s.overlays.help = false;
    assert_eq!(route_key(&s, &paste), KeyRoute::Paste);
    s.overlays.outline_picker = true;
    s.marked = true;
    assert_eq!(route_key(&s, &press("a")), KeyRoute::Composing);
    s.marked = false;
    assert_eq!(route_key(&s, &press("a")), KeyRoute::OutlinePicker);
    s.overlays.outline_picker = false;
    s.overlays.theme_picker = true;
    assert_eq!(route_key(&s, &press("down")), KeyRoute::ThemePicker);
}

#[test]
fn writer_escape_copy_and_window_prefix() {
    let mut s = state();
    s.overlays.ui_mode = UiMode::Writer;
    s.overlays.pane = Pane::Explorer;
    assert_eq!(route_key(&s, &press("escape")), KeyRoute::WriterEscape);
    s.command_open = true;
    assert_eq!(route_key(&s, &press("escape")), KeyRoute::CommandLine);
    s.command_open = false;
    let mut copy = press("c");
    copy.clipboard = true;
    copy.control = true;
    assert_eq!(route_key(&s, &copy), KeyRoute::Copy);
    let mut ctrl_w = press("w");
    ctrl_w.control = true;
    assert_eq!(route_key(&s, &ctrl_w), KeyRoute::WindowPrefix);
    s.window_prefix = true;
    assert_eq!(route_key(&s, &press("j")), KeyRoute::Window(WindowCommand::ShowTerminal));
    s.overlays.terminal_visible = true;
    assert_eq!(route_key(&s, &press("j")), KeyRoute::Window(WindowCommand::FocusTerminal));
    assert_eq!(route_key(&s, &press("x")), KeyRoute::Window(WindowCommand::Nothing));
    assert_eq!(window_key(&"h".to_string(), false), WindowCommand::FocusEditor);
    assert_eq!(window_key(&"l".to_string(), true), WindowCommand::FocusExplorer);
}

#[test]
fn terminal_editor_and_buffer_keys() {
    let mut s = state();
    s.overlays.pane = Pane::Terminal;
    assert_eq!(route_key(&s, &press("a")), KeyRoute::TerminalPassThrough);
    assert_eq!(route_key(&s, &press("up")), KeyRoute::TerminalKey);
    s.overlays.pane = Pane::Editor;
    assert_eq!(route_key(&s, &press("enter")), KeyRoute::EditorEnter);
    assert_eq!(route_key(&s, &press(":")), KeyRoute::OpenCommandLine);
    assert_eq!(route_key(&s, &press("/")), KeyRoute::OpenCommandLine);
    assert_eq!(route_key(&s, &press("n")), KeyRoute::FindNext);
    assert_eq!(route_key(&s, &press("-")), KeyRoute::BufferKey);
    s.overlays.pane = Pane::Explorer;
    assert_eq!(route_key(&s, &press("-")), KeyRoute::ExplorerParent);
    assert_eq!(route_key(&s, &press("enter")), KeyRoute::ExplorerEnter);
    s.overlays.pane = Pane::Editor;
    s.normal_mode = false;
    s.insert_mode = true;
    assert_eq!(route_key(&s, &press("up")), KeyRoute::VerticalMove);
    s.caret_row_laid_out = false;
    assert_eq!(route_key(&s, &press("up")), KeyRoute::BufferKey);
    assert_eq!(route_key(&s, &press("a")), KeyRoute::PassThrough);
    let mut alt = press("x");
    alt.alt = true;
    alt.text = false;
    assert_eq!(route_key(&s, &alt), KeyRoute::PassThrough);
    let mut ctrl_d = press("d");
    ctrl_d.control = true;
    ctrl_d.text = false;
    assert_eq!(route_key(&s, &ctrl_d), KeyRoute::BufferKey);
    assert_eq!(buffer_key(&ctrl_d), "ctrl-d");
    assert_eq!(buffer_key(&press("x")), "x");
}
