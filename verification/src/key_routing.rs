//! Where a key press goes: the quit shortcut first, then each open overlay
//! in turn (mode picker, writer tabs, outline and theme pickers, help), the
//! clipboard shortcuts, the `Ctrl-W` window prefix, the terminal, the command
//! line, and last the focused buffer.
use vstd::prelude::*;
use vstd::string::StringExecFns;

use crate::text::{chars_equal, chars_vec};
use crate::workspace::{Overlays, Pane, UiMode};

verus! {

/// What the workspace holds, beside its overlays, when a key arrives.
#[derive(Clone, Copy, Debug)]
pub struct KeyState {
    pub overlays: Overlays,
    /// An input method is composing text.
    pub marked: bool,
    /// The command line (`:` or `/`) is open.
    pub command_open: bool,
    /// `Ctrl-W` was pressed and waits for its pane key.
    pub window_prefix: bool,
    /// The focused buffer's mode is Normal, or Insert.
    pub normal_mode: bool,
    pub insert_mode: bool,
    /// The current document is Markdown.
    pub markdown: bool,
    /// The caret's row is laid out on screen, so Up and Down can move by
    /// visual line.
    pub caret_row_laid_out: bool,
}

/// A key press: its semantic name (`keyboard::key`), the raw key, the
/// modifiers, whether it is the platform's clipboard shortcut, and whether it
/// commits text (`keyboard::text`).
pub struct KeyPress {
    pub key: String,
    pub raw: String,
    pub control: bool,
    pub alt: bool,
    pub platform: bool,
    pub clipboard: bool,
    pub text: bool,
}

/// What a key after `Ctrl-W` does.
#[derive(Clone, Copy, Debug, PartialEq, Eq, Structural)]
pub enum WindowCommand {
    FocusEditor,
    FocusExplorer,
    /// The terminal is hidden: show it.
    ShowTerminal,
    FocusTerminal,
    /// Any other key: the prefix is dropped.
    Nothing,
}

/// Who handles a key press.
#[derive(Clone, Copy, Debug, PartialEq, Eq, Structural)]
pub enum KeyRoute {
    /// Command-Q: close the window.
    Quit,
    ModePicker,
    /// The writer's tab list: Escape closes it; every key is consumed.
    WriterTabs,
    Paste,
    /// The outline picker is open while an input method composes: the
    /// key goes to the input method.
    Composing,
    OutlinePicker,
    ThemePicker,
    Help,
    /// Escape in the writer's explorer returns to the editor.
    WriterEscape,
    Copy,
    /// `Ctrl-W`: wait for a pane key.
    WindowPrefix,
    Window(WindowCommand),
    /// Text and Command shortcuts in the terminal go to the platform.
    TerminalPassThrough,
    /// Any other key in the terminal is sent to it as bytes.
    TerminalKey,
    CommandLine,
    /// Return in the editor: open a line, split it, or continue a list.
    EditorEnter,
    /// Up or Down in Markdown insert mode: move by visual line.
    VerticalMove,
    /// `:` or `/` opens the command line.
    OpenCommandLine,
    FindNext,
    ExplorerParent,
    ExplorerEnter,
    /// Not handled here: the platform or the input method takes it.
    PassThrough,
    /// The focused buffer's key handling.
    BufferKey,
}

pub open spec fn window_command(key: Seq<char>, terminal_visible: bool) -> WindowCommand {
    if key == seq!['h'] {
        WindowCommand::FocusEditor
    } else if key == seq!['l'] {
        WindowCommand::FocusExplorer
    } else if key == seq!['j'] {
        if terminal_visible {
            WindowCommand::FocusTerminal
        } else {
            WindowCommand::ShowTerminal
        }
    } else {
        WindowCommand::Nothing
    }
}

pub open spec fn plain(p: &KeyPress) -> bool {
    !p.control && !p.alt && !p.platform
}

/// The routing, in the order the workspace tries its handlers: the first that
/// claims the key takes it.
pub open spec fn spec_route_key(s: KeyState, p: &KeyPress) -> KeyRoute {
    let o = s.overlays;
    let key = p.key@;
    if p.platform && p.raw@ == seq!['q'] {
        KeyRoute::Quit
    } else if o.ui_mode_picker is Some {
        KeyRoute::ModePicker
    } else if o.writer_tabs_open {
        KeyRoute::WriterTabs
    } else if p.clipboard && p.raw@ == seq!['v'] && !o.help && !o.theme_picker {
        KeyRoute::Paste
    } else if o.outline_picker {
        if s.marked {
            KeyRoute::Composing
        } else {
            KeyRoute::OutlinePicker
        }
    } else if o.theme_picker {
        KeyRoute::ThemePicker
    } else if o.help {
        KeyRoute::Help
    } else if o.ui_mode == UiMode::Writer && key == seq!['e', 's', 'c', 'a', 'p', 'e'] && !s.command_open
        && o.pane == Pane::Explorer && s.normal_mode {
        KeyRoute::WriterEscape
    } else if p.clipboard && p.raw@ == seq!['c'] && o.pane != Pane::Terminal {
        KeyRoute::Copy
    } else if p.control && p.raw@ == seq!['w'] {
        KeyRoute::WindowPrefix
    } else if s.window_prefix {
        KeyRoute::Window(window_command(key, o.terminal_visible))
    } else if o.pane == Pane::Terminal {
        if p.platform || p.text {
            KeyRoute::TerminalPassThrough
        } else {
            KeyRoute::TerminalKey
        }
    } else if s.command_open {
        KeyRoute::CommandLine
    } else if o.pane == Pane::Editor && key == seq!['e', 'n', 't', 'e', 'r'] && plain(p) {
        KeyRoute::EditorEnter
    } else if s.insert_mode && o.pane == Pane::Editor && s.markdown && plain(p) && (key == seq!['u', 'p']
        || key == seq!['d', 'o', 'w', 'n']) && s.caret_row_laid_out {
        KeyRoute::VerticalMove
    } else if !s.insert_mode && !p.control && !p.platform && (key == seq![':'] || key == seq!['/']) {
        KeyRoute::OpenCommandLine
    } else if !s.insert_mode && !p.control && !p.platform && key == seq!['n'] {
        KeyRoute::FindNext
    } else if !s.insert_mode && !p.control && !p.platform && o.pane == Pane::Explorer && key == seq!['-'] {
        KeyRoute::ExplorerParent
    } else if !s.insert_mode && !p.control && !p.platform && o.pane == Pane::Explorer && key == seq![
        'e',
        'n',
        't',
        'e',
        'r',
    ] {
        KeyRoute::ExplorerEnter
    } else if p.platform || p.alt {
        KeyRoute::PassThrough
    } else if s.insert_mode && p.text {
        KeyRoute::PassThrough
    } else {
        KeyRoute::BufferKey
    }
}

fn is_word(s: &String, w: &[char]) -> (r: bool)
    ensures
        r == (s@ == w@),
{
    let cs = chars_vec(s.as_str());
    chars_equal(cs.as_slice(), w)
}

/// After `Ctrl-W`: `h` focuses the editor, `l` the explorer, and `j` the
/// terminal, showing it first when it is hidden.
pub fn window_key(key: &String, terminal_visible: bool) -> (r: WindowCommand)
    ensures
        r == window_command(key@, terminal_visible),
{
    let h: [char; 1] = ['h'];
    let l: [char; 1] = ['l'];
    let j: [char; 1] = ['j'];
    assert(h@ =~= seq!['h'] && l@ =~= seq!['l'] && j@ =~= seq!['j']);
    if is_word(key, &h) {
        WindowCommand::FocusEditor
    } else if is_word(key, &l) {
        WindowCommand::FocusExplorer
    } else if is_word(key, &j) {
        if terminal_visible {
            WindowCommand::FocusTerminal
        } else {
            WindowCommand::ShowTerminal
        }
    } else {
        WindowCommand::Nothing
    }
}

/// Who handles the key press `p` in state `s`.
pub fn route_key(s: &KeyState, p: &KeyPress) -> (r: KeyRoute)
    ensures
        r == spec_route_key(*s, p),
{
    let o = s.overlays;
    let wq: [char; 1] = ['q'];
    let wv: [char; 1] = ['v'];
    let wc: [char; 1] = ['c'];
    let ww: [char; 1] = ['w'];
    let wescape: [char; 6] = ['e', 's', 'c', 'a', 'p', 'e'];
    let wenter: [char; 5] = ['e', 'n', 't', 'e', 'r'];
    let wup: [char; 2] = ['u', 'p'];
    let wdown: [char; 4] = ['d', 'o', 'w', 'n'];
    let wcolon: [char; 1] = [':'];
    let wslash: [char; 1] = ['/'];
    let wn: [char; 1] = ['n'];
    let wminus: [char; 1] = ['-'];
    assert(wq@ =~= seq!['q'] && wv@ =~= seq!['v'] && wc@ =~= seq!['c'] && ww@ =~= seq!['w']);
    assert(wescape@ =~= seq!['e', 's', 'c', 'a', 'p', 'e'] && wenter@ =~= seq!['e', 'n', 't', 'e', 'r']);
    assert(wup@ =~= seq!['u', 'p'] && wdown@ =~= seq!['d', 'o', 'w', 'n']);
    assert(wcolon@ =~= seq![':'] && wslash@ =~= seq!['/'] && wn@ =~= seq!['n'] && wminus@ =~= seq!['-']);
    let raw_q = is_word(&p.raw, &wq);
    let raw_v = is_word(&p.raw, &wv);
    let raw_c = is_word(&p.raw, &wc);
    let raw_w = is_word(&p.raw, &ww);
    let escape = is_word(&p.key, &wescape);
    let enter = is_word(&p.key, &wenter);
    let up = is_word(&p.key, &wup);
    let down = is_word(&p.key, &wdown);
    let colon = is_word(&p.key, &wcolon);
    let slash = is_word(&p.key, &wslash);
    let n = is_word(&p.key, &wn);
    let minus = is_word(&p.key, &wminus);
    let plain = !p.control && !p.alt && !p.platform;
    if p.platform && raw_q {
        KeyRoute::Quit
    } else if o.ui_mode_picker.is_some() {
        KeyRoute::ModePicker
    } else if o.writer_tabs_open {
        KeyRoute::WriterTabs
    } else if p.clipboard && raw_v && !o.help && !o.theme_picker {
        KeyRoute::Paste
    } else if o.outline_picker {
        if s.marked {
            KeyRoute::Composing
        } else {
            KeyRoute::OutlinePicker
        }
    } else if o.theme_picker {
        KeyRoute::ThemePicker
    } else if o.help {
        KeyRoute::Help
    } else if o.ui_mode == UiMode::Writer && escape && !s.command_open && o.pane == Pane::Explorer
        && s.normal_mode {
        KeyRoute::WriterEscape
    } else if p.clipboard && raw_c && o.pane != Pane::Terminal {
        KeyRoute::Copy
    } else if p.control && raw_w {
        KeyRoute::WindowPrefix
    } else if s.window_prefix {
        KeyRoute::Window(window_key(&p.key, o.terminal_visible))
    } else if o.pane == Pane::Terminal {
        if p.platform || p.text {
            KeyRoute::TerminalPassThrough
        } else {
            KeyRoute::TerminalKey
        }
    } else if s.command_open {
        KeyRoute::CommandLine
    } else if o.pane == Pane::Editor && enter && plain {
        KeyRoute::EditorEnter
    } else if s.insert_mode && o.pane == Pane::Editor && s.markdown && plain && (up || down)
        && s.caret_row_laid_out {
        KeyRoute::VerticalMove
    } else if !s.insert_mode && !p.control && !p.platform && (colon || slash) {
        KeyRoute::OpenCommandLine
    } else if !s.insert_mode && !p.control && !p.platform && n {
        KeyRoute::FindNext
    } else if !s.insert_mode && !p.control && !p.platform && o.pane == Pane::Explorer && minus {
        KeyRoute::ExplorerParent
    } else if !s.insert_mode && !p.control && !p.platform && o.pane == Pane::Explorer && enter {
        KeyRoute::ExplorerEnter
    } else if p.platform || p.alt {
        KeyRoute::PassThrough
    } else if s.insert_mode && p.text {
        KeyRoute::PassThrough
    } else {
        KeyRoute::BufferKey
    }
}

/// The key name the focused buffer receives: `ctrl-` and the raw key with
/// Control held, else the semantic key.
pub open spec fn spec_buffer_key(p: &KeyPress) -> Seq<char> {
    if p.control {
        seq!['c', 't', 'r', 'l', '-'] + p.raw@
    } else {
        p.key@
    }
}

pub fn buffer_key(p: &KeyPress) -> (r: String)
    ensures
        r@ == spec_buffer_key(p),
{
    if p.control {
        proof {
            reveal_strlit("ctrl-");
        }
        let mut s = String::from_str("ctrl-");
        s.append(p.raw.as_str());
        s
    } else {
        p.key.clone()
    }
}

/// An open overlay takes every key before the panes do: with the mode picker,
/// the writer's tabs, help or the theme picker open (and no Command-Q), no
/// key reaches the terminal, the command line or a buffer.
pub proof fn law_open_overlays_take_the_keys(s: KeyState, p: &KeyPress)
    requires
        s.overlays.ui_mode_picker is Some || s.overlays.writer_tabs_open || s.overlays.help
            || s.overlays.theme_picker || s.overlays.outline_picker,
        !(p.platform && p.raw@ == seq!['q']),
    ensures
        ({
            let r = spec_route_key(s, p);
            r == KeyRoute::ModePicker || r == KeyRoute::WriterTabs || r == KeyRoute::Paste || r
                == KeyRoute::Composing || r == KeyRoute::OutlinePicker || r == KeyRoute::ThemePicker || r
                == KeyRoute::Help
        }),
        (s.overlays.help || s.overlays.theme_picker) ==> spec_route_key(s, p) != KeyRoute::Paste,
{
}

} // verus!
