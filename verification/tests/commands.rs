use rockdown::commands::{command_backspace, command_replace, command_type, parse_command, Command};

fn target(s: &str) -> Option<String> {
    Some(s.to_string())
}

#[test]
fn saving_and_closing_commands() {
    assert_eq!(parse_command(":w"), Command::Write { target: None, force: false });
    assert_eq!(parse_command(":w!  notes.md  "), Command::Write { target: target("notes.md"), force: true });
    assert_eq!(parse_command("::  w a b"), Command::Write { target: target("a b"), force: false });
    assert_eq!(parse_command(":wq out.md"), Command::WriteQuit { target: target("out.md") });
    assert_eq!(parse_command(":q"), Command::Quit);
    assert_eq!(parse_command(":q!"), Command::QuitDiscard);
}

#[test]
fn buffer_commands() {
    for verb in ["bp", "bprevious", "previous-buffer"] {
        assert_eq!(parse_command(&format!(":{verb}")), Command::PreviousBuffer);
    }
    for verb in ["bn", "bnext", "next-buffer"] {
        assert_eq!(parse_command(&format!(":{verb}")), Command::NextBuffer);
    }
    for verb in ["bd", "bdelete", "buffer-delete"] {
        assert_eq!(parse_command(&format!(":{verb}")), Command::DeleteBuffer { force: false });
        assert_eq!(parse_command(&format!(":{verb}!")), Command::DeleteBuffer { force: true });
    }
    assert_eq!(parse_command(":e"), Command::Edit { target: None, force: false });
    assert_eq!(parse_command(":e! other.md"), Command::Edit { target: target("other.md"), force: true });
}

#[test]
fn pane_and_view_commands() {
    assert_eq!(parse_command(":term"), Command::Terminal);
    assert_eq!(parse_command(":terminal"), Command::Terminal);
    assert_eq!(parse_command(":ex"), Command::Explorer);
    assert_eq!(parse_command(":help"), Command::Help);
    assert_eq!(parse_command(":themes"), Command::Themes);
    assert_eq!(parse_command(":outline"), Command::Outline);
    assert_eq!(parse_command(":uimode"), Command::UiMode);
    assert_eq!(parse_command(":tabbar"), Command::TabBar);
    assert_eq!(parse_command(":statusbar"), Command::StatusBar);
    assert_eq!(parse_command(":config"), Command::ReloadConfig);
    assert_eq!(parse_command(":"), Command::Nothing);
    assert_eq!(parse_command("  "), Command::Nothing);
}

#[test]
fn search_substitute_and_line_numbers() {
    assert_eq!(parse_command("/ needle "), Command::Search(" needle ".to_string()));
    assert_eq!(parse_command(":%s/a/b/g "), Command::Substitute("/a/b/g ".to_string()));
    assert_eq!(parse_command(":42"), Command::GoToLine(42));
    assert_eq!(parse_command(":+7"), Command::GoToLine(7));
    assert_eq!(parse_command(":0"), Command::GoToLine(0));
    assert_eq!(parse_command(":+"), Command::Unknown("+".to_string()));
    assert_eq!(parse_command(":-1"), Command::Unknown("-1".to_string()));
    assert_eq!(parse_command(":99999999999999999999999"), Command::Unknown("99999999999999999999999".to_string()));
    assert_eq!(parse_command(":frobnicate now"), Command::Unknown("frobnicate".to_string()));
}

#[test]
fn command_line_backspace_drops_a_cluster_or_closes() {
    assert_eq!(command_backspace(":ab"), Some(":a".to_string()));
    assert_eq!(command_backspace(":e\u{301}"), Some(":".to_string()));
    assert_eq!(command_backspace(":"), None);
    assert_eq!(command_backspace("/"), None);
}

#[test]
fn command_line_typing_and_input_method_edits() {
    let mut command = ":w".to_string();
    command_type(&mut command, "q\r\n!");
    assert_eq!(command, ":wq!");
    assert_eq!(command_replace(":wq", Some((1, 3)), "e"), ":e");
    assert_eq!(command_replace(":w", None, "q"), ":wq");
    assert_eq!(command_replace(":😀x", Some((1, 3)), "y"), ":yx");
}
