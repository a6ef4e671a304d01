//! Which overlays of the workspace are open (the mode picker, the writer's
//! tab list, help, the theme and outline pickers), which pane has focus, and
//! how a named action (from a configured shortcut) is routed through them:
//! an open overlay swallows the actions it does not offer.
use vstd::prelude::*;

use crate::text::{chars_equal, chars_vec};

verus! {

/// The workspace layout: every pane, or the distraction-free writer.
#[derive(Clone, Copy, Debug, PartialEq, Eq, Structural)]
pub enum UiMode {
    Dev,
    Writer,
}

#[derive(Clone, Copy, Debug, PartialEq, Eq, Structural)]
pub enum Pane {
    Editor,
    Explorer,
    Terminal,
}

/// The focused pane, which side panes show, and which overlays are open.
/// `ui_mode_picker` holds the mode highlighted in the open mode picker;
/// `dev_explorer` and `dev_terminal` remember the side panes of the full
/// layout while the writer hides them; `help_section` is the page of help.
#[derive(Clone, Copy, Debug)]
pub struct Overlays {
    pub ui_mode: UiMode,
    pub pane: Pane,
    pub explorer_visible: bool,
    pub terminal_visible: bool,
    pub ui_mode_picker: Option<UiMode>,
    pub writer_tabs_open: bool,
    pub writer_chrome_visible: bool,
    pub dev_explorer: bool,
    pub dev_terminal: bool,
    pub help: bool,
    pub help_section: usize,
    pub theme_picker: bool,
    pub outline_picker: bool,
}

/// What became of an action.
#[derive(Clone, Copy, Debug, PartialEq, Eq, Structural)]
pub enum ActionStep {
    /// The overlays handled it; nothing more to do.
    Done,
    /// An open overlay swallowed it.
    Ignored,
    /// It reaches the workspace's own commands.
    Dispatch,
}

pub open spec fn status_bar_word() -> Seq<char> {
    seq!['s', 't', 'a', 't', 'u', 's', '-', 'b', 'a', 'r']
}

pub open spec fn tab_bar_word() -> Seq<char> {
    seq!['t', 'a', 'b', '-', 'b', 'a', 'r']
}

pub open spec fn ui_mode_word() -> Seq<char> {
    seq!['u', 'i', '-', 'm', 'o', 'd', 'e']
}

pub open spec fn explorer_word() -> Seq<char> {
    seq!['e', 'x', 'p', 'l', 'o', 'r', 'e', 'r']
}

pub open spec fn terminal_word() -> Seq<char> {
    seq!['t', 'e', 'r', 'm', 'i', 'n', 'a', 'l']
}

pub open spec fn help_word() -> Seq<char> {
    seq!['h', 'e', 'l', 'p']
}

pub open spec fn outline_word() -> Seq<char> {
    seq!['o', 'u', 't', 'l', 'i', 'n', 'e']
}

pub open spec fn themes_word() -> Seq<char> {
    seq!['t', 'h', 'e', 'm', 'e', 's']
}

pub open spec fn editor_word() -> Seq<char> {
    seq!['e', 'd', 'i', 't', 'o', 'r']
}

pub open spec fn previous_buffer_word() -> Seq<char> {
    seq!['p', 'r', 'e', 'v', 'i', 'o', 'u', 's', '-', 'b', 'u', 'f', 'f', 'e', 'r']
}

pub open spec fn next_buffer_word() -> Seq<char> {
    seq!['n', 'e', 'x', 't', '-', 'b', 'u', 'f', 'f', 'e', 'r']
}

pub open spec fn buffer_delete_word() -> Seq<char> {
    seq!['b', 'u', 'f', 'f', 'e', 'r', '-', 'd', 'e', 'l', 'e', 't', 'e']
}

pub open spec fn paste_word() -> Seq<char> {
    seq!['p', 'a', 's', 't', 'e']
}

pub open spec fn save_word() -> Seq<char> {
    seq!['s', 'a', 'v', 'e']
}

pub open spec fn save_as_word() -> Seq<char> {
    seq!['s', 'a', 'v', 'e', '-', 'a', 's']
}

/// The actions the writer's open tab list lets through.
pub open spec fn tab_list_action(a: Seq<char>) -> bool {
    a == explorer_word() || a == terminal_word() || a == help_word() || a == outline_word() || a
        == themes_word() || a == editor_word() || a == previous_buffer_word() || a
        == next_buffer_word() || a == buffer_delete_word()
}

/// The actions that, in the writer, close the other overlays first.
pub open spec fn panel_action(a: Seq<char>) -> bool {
    a == help_word() || a == outline_word() || a == explorer_word() || a == terminal_word()
}

/// The actions open help lets through.
pub open spec fn help_action(a: Seq<char>) -> bool {
    a == help_word() || a == themes_word() || a == outline_word() || a == tab_bar_word() || a
        == status_bar_word()
}

/// The actions the open outline picker lets through.
pub open spec fn outline_action(a: Seq<char>) -> bool {
    a == outline_word() || a == paste_word() || a == help_word() || a == themes_word() || a
        == previous_buffer_word() || a == next_buffer_word() || a == save_word() || a
        == save_as_word()
}

impl Overlays {
    /// Focus moves to `pane`; in the writer only the focused side pane shows,
    /// and focusing the explorer always shows it.
    pub open spec fn with_pane(self, pane: Pane) -> Overlays {
        let writer = self.ui_mode == UiMode::Writer;
        Overlays {
            pane,
            explorer_visible: if pane == Pane::Explorer {
                true
            } else if writer {
                false
            } else {
                self.explorer_visible
            },
            terminal_visible: if writer {
                pane == Pane::Terminal
            } else {
                self.terminal_visible
            },
            ..self
        }
    }

    /// Every overlay closed (a cancelled theme picker restores the theme)
    /// and the editor focused.
    pub open spec fn calm(self) -> Overlays {
        Overlays {
            help: false,
            outline_picker: false,
            theme_picker: false,
            ui_mode_picker: None,
            ..self
        }.with_pane(Pane::Editor)
    }

    pub open spec fn spec_toggle_ui_mode_picker(self) -> Overlays {
        if self.ui_mode_picker is Some {
            Overlays { writer_tabs_open: false, ui_mode_picker: None, ..self }
        } else {
            Overlays { writer_tabs_open: false, ui_mode_picker: Some(self.ui_mode), ..self.calm() }
        }
    }

    pub open spec fn spec_toggle_writer_chrome(self) -> Overlays {
        if self.writer_chrome_visible {
            Overlays { writer_chrome_visible: false, writer_tabs_open: false, ..self.calm() }
        } else {
            Overlays { writer_chrome_visible: true, ..self }
        }
    }

    pub open spec fn spec_toggle_writer_tabs(self) -> Overlays {
        Overlays { writer_tabs_open: !self.writer_tabs_open, ..self.calm() }
    }

    /// In the writer, a panel action first closes the tab list and the theme
    /// picker, the overlays it does not name, and a side pane it does not name.
    pub open spec fn leave_for(self, a: Seq<char>) -> Overlays {
        let o = Overlays {
            writer_tabs_open: false,
            theme_picker: false,
            help: if a == help_word() {
                self.help
            } else {
                false
            },
            outline_picker: if a == outline_word() {
                self.outline_picker
            } else {
                false
            },
            ..self
        };
        if (self.pane == Pane::Explorer && a != explorer_word()) || (self.pane == Pane::Terminal
            && a != terminal_word()) {
            o.with_pane(Pane::Editor)
        } else {
            o
        }
    }

    /// Where an action goes, and the overlays after it.
    pub open spec fn spec_route_action(self, a: Seq<char>) -> (Overlays, ActionStep) {
        let writer = self.ui_mode == UiMode::Writer;
        if writer && a == status_bar_word() {
            (self.spec_toggle_writer_chrome(), ActionStep::Done)
        } else if a == ui_mode_word() {
            (self.spec_toggle_ui_mode_picker(), ActionStep::Done)
        } else if self.ui_mode_picker is Some {
            (self, ActionStep::Ignored)
        } else if writer && a == tab_bar_word() {
            (self.spec_toggle_writer_tabs(), ActionStep::Done)
        } else if self.writer_tabs_open && !tab_list_action(a) {
            (self, ActionStep::Ignored)
        } else {
            let o = if writer && panel_action(a) {
                self.leave_for(a)
            } else {
                self
            };
            if o.help && !help_action(a) {
                (o, ActionStep::Ignored)
            } else if o.theme_picker {
                if a == themes_word() {
                    (Overlays { theme_picker: false, ..o }, ActionStep::Done)
                } else {
                    (o, ActionStep::Ignored)
                }
            } else if o.outline_picker && !outline_action(a) {
                (o, ActionStep::Ignored)
            } else if a == editor_word() {
                (Overlays { writer_tabs_open: false, ..o }.with_pane(Pane::Editor), ActionStep::Done)
            } else if a == help_word() {
                (Overlays { outline_picker: false, help: !o.help, ..o }, ActionStep::Done)
            } else {
                (o, ActionStep::Dispatch)
            }
        }
    }

    pub fn set_pane(&mut self, pane: Pane)
        ensures
            *final(self) == old(self).with_pane(pane),
    {
        if self.ui_mode == UiMode::Writer {
            self.explorer_visible = pane == Pane::Explorer;
            self.terminal_visible = pane == Pane::Terminal;
        }
        if pane == Pane::Explorer {
            self.explorer_visible = true;
        }
        self.pane = pane;
    }

    fn calm_down(&mut self)
        ensures
            *final(self) == old(self).calm(),
    {
        self.help = false;
        self.outline_picker = false;
        self.theme_picker = false;
        self.ui_mode_picker = None;
        self.set_pane(Pane::Editor);
    }

    /// Opens the mode picker on the current mode (closing the rest), or
    /// closes it.
    pub fn toggle_ui_mode_picker(&mut self)
        ensures
            *final(self) == old(self).spec_toggle_ui_mode_picker(),
    {
        if self.ui_mode_picker.is_some() {
            self.writer_tabs_open = false;
            self.ui_mode_picker = None;
        } else {
            self.calm_down();
            self.writer_tabs_open = false;
            self.ui_mode_picker = Some(self.ui_mode);
        }
    }

    /// Shows or hides the writer's chrome; hiding it closes every overlay.
    pub fn toggle_writer_chrome(&mut self)
        ensures
            *final(self) == old(self).spec_toggle_writer_chrome(),
    {
        if self.writer_chrome_visible {
            self.calm_down();
            self.writer_chrome_visible = false;
            self.writer_tabs_open = false;
        } else {
            self.writer_chrome_visible = true;
        }
    }

    /// Opens or closes the writer's tab list, closing the other overlays.
    pub fn toggle_writer_tabs(&mut self)
        ensures
            *final(self) == old(self).spec_toggle_writer_tabs(),
    {
        let open = !self.writer_tabs_open;
        self.calm_down();
        self.writer_tabs_open = open;
    }

    fn leave_for_exec(&mut self, a: &Vec<char>, w: &ActionWords)
        requires
            w.matches(a@),
        ensures
            *final(self) == old(self).leave_for(a@),
    {
        let leave = (self.pane == Pane::Explorer && !w.explorer) || (self.pane == Pane::Terminal
            && !w.terminal);
        self.writer_tabs_open = false;
        self.theme_picker = false;
        if !w.help {
            self.help = false;
        }
        if !w.outline {
            self.outline_picker = false;
        }
        if leave {
            self.set_pane(Pane::Editor);
        }
    }

    /// Routes a named action through the open overlays.
    #[verifier::rlimit(30)]
    pub fn route_action(&mut self, action: &str) -> (step: ActionStep)
        ensures
            (*final(self), step) == old(self).spec_route_action(action@),
    {
        let a = chars_vec(action);
        let w = ActionWords::of(&a);
        let writer = self.ui_mode == UiMode::Writer;
        if writer && w.status_bar {
            self.toggle_writer_chrome();
            return ActionStep::Done;
        }
        if w.ui_mode {
            self.toggle_ui_mode_picker();
            return ActionStep::Done;
        }
        if self.ui_mode_picker.is_some() {
            return ActionStep::Ignored;
        }
        if writer && w.tab_bar {
            self.toggle_writer_tabs();
            return ActionStep::Done;
        }
        let tab_list = w.explorer || w.terminal || w.help || w.outline || w.themes || w.editor
            || w.previous_buffer || w.next_buffer || w.buffer_delete;
        if self.writer_tabs_open && !tab_list {
            return ActionStep::Ignored;
        }
        if writer && (w.help || w.outline || w.explorer || w.terminal) {
            self.leave_for_exec(&a, &w);
        }
        if self.help && !(w.help || w.themes || w.outline || w.tab_bar || w.status_bar) {
            return ActionStep::Ignored;
        }
        if self.theme_picker {
            if w.themes {
                self.theme_picker = false;
                return ActionStep::Done;
            }
            return ActionStep::Ignored;
        }
        if self.outline_picker && !(w.outline || w.paste || w.help || w.themes || w.previous_buffer
            || w.next_buffer || w.save || w.save_as) {
            return ActionStep::Ignored;
        }
        if w.editor {
            self.writer_tabs_open = false;
            self.set_pane(Pane::Editor);
            return ActionStep::Done;
        }
        if w.help {
            self.outline_picker = false;
            self.help = !self.help;
            return ActionStep::Done;
        }
        ActionStep::Dispatch
    }
}

/// Which of the routed action names an action is.
struct ActionWords {
    status_bar: bool,
    tab_bar: bool,
    ui_mode: bool,
    explorer: bool,
    terminal: bool,
    help: bool,
    outline: bool,
    themes: bool,
    editor: bool,
    previous_buffer: bool,
    next_buffer: bool,
    buffer_delete: bool,
    paste: bool,
    save: bool,
    save_as: bool,
}

impl ActionWords {
    spec fn matches(&self, a: Seq<char>) -> bool {
        &&& self.status_bar == (a == status_bar_word())
        &&& self.tab_bar == (a == tab_bar_word())
        &&& self.ui_mode == (a == ui_mode_word())
        &&& self.explorer == (a == explorer_word())
        &&& self.terminal == (a == terminal_word())
        &&& self.help == (a == help_word())
        &&& self.outline == (a == outline_word())
        &&& self.themes == (a == themes_word())
        &&& self.editor == (a == editor_word())
        &&& self.previous_buffer == (a == previous_buffer_word())
        &&& self.next_buffer == (a == next_buffer_word())
        &&& self.buffer_delete == (a == buffer_delete_word())
        &&& self.paste == (a == paste_word())
        &&& self.save == (a == save_word())
        &&& self.save_as == (a == save_as_word())
    }

    fn of(a: &Vec<char>) -> (w: ActionWords)
        ensures
            w.matches(a@),
    {
        let w = ActionWords {
            status_bar: chars_equal(a.as_slice(), &['s', 't', 'a', 't', 'u', 's', '-', 'b', 'a', 'r']),
            tab_bar: chars_equal(a.as_slice(), &['t', 'a', 'b', '-', 'b', 'a', 'r']),
            ui_mode: chars_equal(a.as_slice(), &['u', 'i', '-', 'm', 'o', 'd', 'e']),
            explorer: chars_equal(a.as_slice(), &['e', 'x', 'p', 'l', 'o', 'r', 'e', 'r']),
            terminal: chars_equal(a.as_slice(), &['t', 'e', 'r', 'm', 'i', 'n', 'a', 'l']),
            help: chars_equal(a.as_slice(), &['h', 'e', 'l', 'p']),
            outline: chars_equal(a.as_slice(), &['o', 'u', 't', 'l', 'i', 'n', 'e']),
            themes: chars_equal(a.as_slice(), &['t', 'h', 'e', 'm', 'e', 's']),
            editor: chars_equal(a.as_slice(), &['e', 'd', 'i', 't', 'o', 'r']),
            previous_buffer: chars_equal(
                a.as_slice(),
                &['p', 'r', 'e', 'v', 'i', 'o', 'u', 's', '-', 'b', 'u', 'f', 'f', 'e', 'r'],
            ),
            next_buffer: chars_equal(a.as_slice(), &['n', 'e', 'x', 't', '-', 'b', 'u', 'f', 'f', 'e', 'r']),
            buffer_delete: chars_equal(
                a.as_slice(),
                &['b', 'u', 'f', 'f', 'e', 'r', '-', 'd', 'e', 'l', 'e', 't', 'e'],
            ),
            paste: chars_equal(a.as_slice(), &['p', 'a', 's', 't', 'e']),
            save: chars_equal(a.as_slice(), &['s', 'a', 'v', 'e']),
            save_as: chars_equal(a.as_slice(), &['s', 'a', 'v', 'e', '-', 'a', 's']),
        };
        w
    }
}

/// What the theme picker does with a key.
#[derive(Clone, Copy, Debug, PartialEq, Eq, Structural)]
pub enum ThemeKey {
    /// Close it, going back to the theme it opened on.
    Cancel,
    /// Close it, keeping the previewed theme.
    Keep,
    /// Preview entry `n` (entry 0 is the theme it opened on).
    Preview(usize),
    /// Nothing.
    Nothing,
}

pub open spec fn key_up(k: Seq<char>) -> bool {
    k == seq!['u', 'p']
}

pub open spec fn key_down(k: Seq<char>) -> bool {
    k == seq!['d', 'o', 'w', 'n']
}

pub open spec fn key_escape(k: Seq<char>) -> bool {
    k == seq!['e', 's', 'c', 'a', 'p', 'e']
}

pub open spec fn key_enter(k: Seq<char>) -> bool {
    k == seq!['e', 'n', 't', 'e', 'r']
}

pub open spec fn key_tab(k: Seq<char>) -> bool {
    k == seq!['t', 'a', 'b']
}

/// The theme picker's keys, over `count` entries with `selected` previewed.
pub open spec fn spec_theme_key(selected: int, count: int, k: Seq<char>) -> ThemeKey {
    if key_escape(k) {
        ThemeKey::Cancel
    } else if key_enter(k) {
        ThemeKey::Keep
    } else if key_up(k) || k == seq!['k'] {
        ThemeKey::Preview(crate::picker::spec_step(selected, count, true) as usize)
    } else if key_down(k) || k == seq!['j'] || key_tab(k) {
        ThemeKey::Preview(crate::picker::spec_step(selected, count, false) as usize)
    } else if k == seq!['h', 'o', 'm', 'e'] {
        ThemeKey::Preview(0)
    } else if k == seq!['e', 'n', 'd'] {
        ThemeKey::Preview((count - 1) as usize)
    } else {
        ThemeKey::Nothing
    }
}

fn is_char(k: &Vec<char>, c: char) -> (b: bool)
    ensures
        b == (k@ == seq![c]),
{
    if k.len() == 1 && k[0] == c {
        assert(k@ =~= seq![c]);
        true
    } else {
        false
    }
}

/// Which of the keys the overlays know a key is.
struct KeyWords {
    escape: bool,
    enter: bool,
    up: bool,
    down: bool,
    left: bool,
    right: bool,
    tab: bool,
    home: bool,
    end: bool,
    j: bool,
    k: bool,
    q: bool,
}

impl KeyWords {
    spec fn matches(&self, k: Seq<char>) -> bool {
        &&& self.escape == key_escape(k)
        &&& self.enter == key_enter(k)
        &&& self.up == key_up(k)
        &&& self.down == key_down(k)
        &&& self.left == (k == seq!['l', 'e', 'f', 't'])
        &&& self.right == (k == seq!['r', 'i', 'g', 'h', 't'])
        &&& self.tab == key_tab(k)
        &&& self.home == (k == seq!['h', 'o', 'm', 'e'])
        &&& self.end == (k == seq!['e', 'n', 'd'])
        &&& self.j == (k == seq!['j'])
        &&& self.k == (k == seq!['k'])
        &&& self.q == (k == seq!['q'])
    }

    fn of(key: &str) -> (w: KeyWords)
        ensures
            w.matches(key@),
    {
        let k = chars_vec(key);
        KeyWords {
            escape: chars_equal(k.as_slice(), &['e', 's', 'c', 'a', 'p', 'e']),
            enter: chars_equal(k.as_slice(), &['e', 'n', 't', 'e', 'r']),
            up: chars_equal(k.as_slice(), &['u', 'p']),
            down: chars_equal(k.as_slice(), &['d', 'o', 'w', 'n']),
            left: chars_equal(k.as_slice(), &['l', 'e', 'f', 't']),
            right: chars_equal(k.as_slice(), &['r', 'i', 'g', 'h', 't']),
            tab: chars_equal(k.as_slice(), &['t', 'a', 'b']),
            home: chars_equal(k.as_slice(), &['h', 'o', 'm', 'e']),
            end: chars_equal(k.as_slice(), &['e', 'n', 'd']),
            j: is_char(&k, 'j'),
            k: is_char(&k, 'k'),
            q: is_char(&k, 'q'),
        }
    }
}

pub fn theme_key(selected: usize, count: usize, key: &str) -> (r: ThemeKey)
    requires
        selected < count,
    ensures
        r == spec_theme_key(selected as int, count as int, key@),
{
    let w = KeyWords::of(key);
    if w.escape {
        ThemeKey::Cancel
    } else if w.enter {
        ThemeKey::Keep
    } else if w.up || w.k {
        ThemeKey::Preview(crate::picker::step_selection(selected, count, true))
    } else if w.down || w.j || w.tab {
        ThemeKey::Preview(crate::picker::step_selection(selected, count, false))
    } else if w.home {
        ThemeKey::Preview(0)
    } else if w.end {
        ThemeKey::Preview(count - 1)
    } else {
        ThemeKey::Nothing
    }
}

impl Overlays {
    /// Switching layout closes every overlay and focuses the editor; the
    /// writer hides the side panes, and the full layout brings back the ones
    /// it had (the terminal only while its session lives).
    pub open spec fn spec_set_ui_mode(self, mode: UiMode, terminal_alive: bool) -> Overlays {
        if self.ui_mode == mode {
            Overlays { ui_mode_picker: None, ..self }
        } else {
            let hidden = if mode == UiMode::Writer {
                Overlays {
                    dev_explorer: self.explorer_visible,
                    dev_terminal: self.terminal_visible,
                    explorer_visible: false,
                    terminal_visible: false,
                    ..self
                }
            } else {
                self
            };
            let switched = Overlays {
                ui_mode: mode,
                ui_mode_picker: None,
                writer_chrome_visible: true,
                writer_tabs_open: false,
                help: false,
                outline_picker: false,
                theme_picker: false,
                ..hidden
            }.with_pane(Pane::Editor);
            if mode == UiMode::Dev {
                Overlays {
                    explorer_visible: switched.dev_explorer,
                    terminal_visible: switched.dev_terminal && terminal_alive,
                    ..switched
                }
            } else {
                switched
            }
        }
    }

    pub fn set_ui_mode(&mut self, mode: UiMode, terminal_alive: bool)
        ensures
            *final(self) == old(self).spec_set_ui_mode(mode, terminal_alive),
    {
        self.ui_mode_picker = None;
        if self.ui_mode == mode {
            return;
        }
        if mode == UiMode::Writer {
            self.dev_explorer = self.explorer_visible;
            self.dev_terminal = self.terminal_visible;
            self.explorer_visible = false;
            self.terminal_visible = false;
        }
        self.ui_mode = mode;
        self.writer_chrome_visible = true;
        self.writer_tabs_open = false;
        self.help = false;
        self.outline_picker = false;
        self.theme_picker = false;
        self.set_pane(Pane::Editor);
        if mode == UiMode::Dev {
            self.explorer_visible = self.dev_explorer;
            self.terminal_visible = self.dev_terminal && terminal_alive;
        }
    }

    /// A key while the mode picker is open: Escape closes it, Enter
    /// switches to the highlighted mode, and the arrows (`j`, `k`, Tab)
    /// highlight the other mode. Every key is consumed.
    pub open spec fn spec_mode_picker_key(self, k: Seq<char>, terminal_alive: bool) -> Overlays
        recommends
            self.ui_mode_picker is Some,
    {
        let selected = self.ui_mode_picker->0;
        if key_escape(k) {
            Overlays { ui_mode_picker: None, ..self }
        } else if key_enter(k) {
            self.spec_set_ui_mode(selected, terminal_alive)
        } else if key_up(k) || key_down(k) || k == seq!['j'] || k == seq!['k'] || key_tab(k) {
            Overlays {
                ui_mode_picker: Some(
                    if selected == UiMode::Dev {
                        UiMode::Writer
                    } else {
                        UiMode::Dev
                    },
                ),
                ..self
            }
        } else {
            self
        }
    }

    pub fn mode_picker_key(&mut self, key: &str, terminal_alive: bool)
        requires
            old(self).ui_mode_picker is Some,
        ensures
            *final(self) == old(self).spec_mode_picker_key(key@, terminal_alive),
    {
        let w = KeyWords::of(key);
        let selected = match self.ui_mode_picker {
            Some(mode) => mode,
            None => self.ui_mode,
        };
        if w.escape {
            self.ui_mode_picker = None;
        } else if w.enter {
            self.set_ui_mode(selected, terminal_alive);
        } else if w.up || w.down || w.j || w.k || w.tab {
            self.ui_mode_picker = Some(
                if selected == UiMode::Dev {
                    UiMode::Writer
                } else {
                    UiMode::Dev
                },
            );
        }
    }

    /// A key while help is open: Escape or `q` closes it, Left and Right
    /// (or Tab) turn its pages, wrapping around. Every key is consumed.
    pub open spec fn spec_help_key(self, k: Seq<char>, sections: int) -> Overlays {
        if key_escape(k) || k == seq!['q'] {
            Overlays { help: false, ..self }
        } else if k == seq!['l', 'e', 'f', 't'] {
            Overlays {
                help_section: crate::picker::spec_step(self.help_section as int, sections, true) as usize,
                ..self
            }
        } else if k == seq!['r', 'i', 'g', 'h', 't'] || key_tab(k) {
            Overlays {
                help_section: crate::picker::spec_step(self.help_section as int, sections, false) as usize,
                ..self
            }
        } else {
            self
        }
    }

    pub fn help_key(&mut self, key: &str, sections: usize)
        requires
            old(self).help_section < sections,
        ensures
            *final(self) == old(self).spec_help_key(key@, sections as int),
            final(self).help_section < sections,
    {
        let w = KeyWords::of(key);
        if w.escape || w.q {
            self.help = false;
        } else if w.left {
            self.help_section = crate::picker::step_selection(self.help_section, sections, true);
        } else if w.right || w.tab {
            self.help_section = crate::picker::step_selection(self.help_section, sections, false);
        }
    }
}

impl Overlays {
    pub open spec fn spec_toggle_explorer(self) -> Overlays {
        if self.explorer_visible {
            let hidden = Overlays { explorer_visible: false, ..self };
            if self.pane == Pane::Explorer {
                hidden.with_pane(Pane::Editor)
            } else {
                hidden
            }
        } else {
            self.with_pane(Pane::Explorer)
        }
    }

    /// Shows and focuses the explorer, or hides it (focusing the editor
    /// when the explorer had focus).
    pub fn toggle_explorer(&mut self)
        ensures
            *final(self) == old(self).spec_toggle_explorer(),
    {
        if self.explorer_visible {
            self.explorer_visible = false;
            if self.pane == Pane::Explorer {
                self.set_pane(Pane::Editor);
            }
        } else {
            self.set_pane(Pane::Explorer);
        }
    }

    /// `started`: a terminal session was just started for this toggle.
    pub open spec fn spec_toggle_terminal(self, started: bool) -> Overlays {
        let visible = if started {
            true
        } else {
            !self.terminal_visible
        };
        Overlays { terminal_visible: visible, ..self }.with_pane(
            if visible {
                Pane::Terminal
            } else {
                Pane::Editor
            },
        )
    }

    /// Shows and focuses the terminal (a session just started always
    /// shows), or hides it and focuses the editor.
    pub fn toggle_terminal(&mut self, started: bool)
        ensures
            *final(self) == old(self).spec_toggle_terminal(started),
    {
        if started {
            self.terminal_visible = true;
        } else {
            self.terminal_visible = !self.terminal_visible;
        }
        let pane = if self.terminal_visible {
            Pane::Terminal
        } else {
            Pane::Editor
        };
        self.set_pane(pane);
    }

    pub open spec fn spec_terminal_exited(self) -> Overlays {
        let hidden = Overlays { terminal_visible: false, ..self };
        if self.pane == Pane::Terminal {
            hidden.with_pane(Pane::Editor)
        } else {
            hidden
        }
    }

    /// The shell exited: the terminal hides, and the editor takes focus
    /// from it.
    pub fn terminal_exited(&mut self)
        ensures
            *final(self) == old(self).spec_terminal_exited(),
    {
        self.terminal_visible = false;
        if self.pane == Pane::Terminal {
            self.set_pane(Pane::Editor);
        }
    }
}

/// Going to the writer and back to the full layout brings back the side
/// panes that were showing (the terminal only while its session lives), and
/// leaves no overlay open.
pub proof fn law_writer_round_trip_restores_panes(o: Overlays, terminal_alive: bool)
    requires
        o.ui_mode == UiMode::Dev,
    ensures
        ({
            let back = o.spec_set_ui_mode(UiMode::Writer, terminal_alive).spec_set_ui_mode(
                UiMode::Dev,
                terminal_alive,
            );
            &&& back.ui_mode == UiMode::Dev
            &&& back.explorer_visible == o.explorer_visible
            &&& back.terminal_visible == (o.terminal_visible && terminal_alive)
            &&& back.pane == Pane::Editor
            &&& !back.help && !back.theme_picker && !back.outline_picker
            &&& back.ui_mode_picker is None && !back.writer_tabs_open
        }),
{
}

/// While the mode picker is open, every action but the mode picker's own
/// (and, in the writer, the status bar's) is swallowed and changes nothing.
pub proof fn law_mode_picker_swallows_actions(o: Overlays, a: Seq<char>)
    requires
        o.ui_mode_picker is Some,
        a != ui_mode_word(),
        !(o.ui_mode == UiMode::Writer && a == status_bar_word()),
    ensures
        o.spec_route_action(a) == (o, ActionStep::Ignored),
{
}

/// An action that reaches the workspace's commands finds no overlay open
/// but the ones that let it through.
pub proof fn law_dispatch_only_past_open_overlays(o: Overlays, a: Seq<char>)
    ensures
        ({
            let (after, step) = o.spec_route_action(a);
            step == ActionStep::Dispatch ==> {
                &&& after.ui_mode_picker is None
                &&& !after.theme_picker
                &&& (after.help ==> help_action(a))
                &&& (after.outline_picker ==> outline_action(a))
                &&& (after.writer_tabs_open ==> tab_list_action(a))
            }
        }),
{
}

} // verus!
