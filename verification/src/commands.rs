//! Command-line commands typed in the workspace (`:w`, `:bd!`, `/text`,
//! `:%s/a/b/`, a line number, ...): what a typed command asks for.
use vstd::prelude::*;

use crate::picker::{
    chars_between, previous_boundary, previous_boundary_exec, replaced_span, without_line_breaks,
    without_line_breaks_exec,
};
use crate::text::{
    push_char, chars_equal, chars_vec, is_unicode_whitespace, is_whitespace, skip_whitespace, string_from_chars,
    trim_end_index, trimmed,
};
use crate::text_input::{
    char_index, lemma_boundary_index, lemma_longest_is_prefix_utf16, lemma_longest_utf16_monotone,
    lemma_utf8_len_is_encoding, longest_within_utf16, utf8_len, utf8_offset,
};

verus! {

/// A command of the workspace's command line.
#[derive(Debug, Clone, PartialEq, Eq)]
pub enum Command {
    /// `/text`: search for the text.
    Search(String),
    /// `:%s...`: substitute, with the rest of the command as its pattern.
    Substitute(String),
    /// `:w [file]`, `:w! [file]`: save, to the file when one is named.
    Write { target: Option<String>, force: bool },
    /// `:wq [file]`: save, then close the window.
    WriteQuit { target: Option<String> },
    /// `:q`: close the window, asking about unsaved changes.
    Quit,
    /// `:q!`: close the window, discarding unsaved changes.
    QuitDiscard,
    /// `:bp`: the previous buffer.
    PreviousBuffer,
    /// `:bn`: the next buffer.
    NextBuffer,
    /// `:bd`, `:bd!`: close the buffer (discarding its changes when forced).
    DeleteBuffer { force: bool },
    /// `:e [file]`, `:e! [file]`: open a file or reload (forced: discarding changes).
    Edit { target: Option<String>, force: bool },
    Terminal,
    Explorer,
    Help,
    Themes,
    Outline,
    UiMode,
    TabBar,
    StatusBar,
    /// `:config`: load the configuration again.
    ReloadConfig,
    /// An empty command.
    Nothing,
    /// A line number: move to that line.
    GoToLine(usize),
    /// Anything else, by its verb.
    Unknown(String),
}

pub enum CommandView {
    Search(Seq<char>),
    Substitute(Seq<char>),
    Write { target: Option<Seq<char>>, force: bool },
    WriteQuit { target: Option<Seq<char>> },
    Quit,
    QuitDiscard,
    PreviousBuffer,
    NextBuffer,
    DeleteBuffer { force: bool },
    Edit { target: Option<Seq<char>>, force: bool },
    Terminal,
    Explorer,
    Help,
    Themes,
    Outline,
    UiMode,
    TabBar,
    StatusBar,
    ReloadConfig,
    Nothing,
    GoToLine(nat),
    Unknown(Seq<char>),
}

pub open spec fn opt_chars(o: Option<String>) -> Option<Seq<char>> {
    match o {
        Some(s) => Some(s@),
        None => None,
    }
}

impl View for Command {
    type V = CommandView;

    open spec fn view(&self) -> CommandView {
        match self {
            Command::Search(s) => CommandView::Search(s@),
            Command::Substitute(s) => CommandView::Substitute(s@),
            Command::Write { target, force } => CommandView::Write { target: opt_chars(*target), force: *force },
            Command::WriteQuit { target } => CommandView::WriteQuit { target: opt_chars(*target) },
            Command::Quit => CommandView::Quit,
            Command::QuitDiscard => CommandView::QuitDiscard,
            Command::PreviousBuffer => CommandView::PreviousBuffer,
            Command::NextBuffer => CommandView::NextBuffer,
            Command::DeleteBuffer { force } => CommandView::DeleteBuffer { force: *force },
            Command::Edit { target, force } => CommandView::Edit { target: opt_chars(*target), force: *force },
            Command::Terminal => CommandView::Terminal,
            Command::Explorer => CommandView::Explorer,
            Command::Help => CommandView::Help,
            Command::Themes => CommandView::Themes,
            Command::Outline => CommandView::Outline,
            Command::UiMode => CommandView::UiMode,
            Command::TabBar => CommandView::TabBar,
            Command::StatusBar => CommandView::StatusBar,
            Command::ReloadConfig => CommandView::ReloadConfig,
            Command::Nothing => CommandView::Nothing,
            Command::GoToLine(n) => CommandView::GoToLine(*n as nat),
            Command::Unknown(s) => CommandView::Unknown(s@),
        }
    }
}

/// The first index at or after `i` whose character is not `:`.
pub open spec fn skip_colons(s: Seq<char>, i: int) -> int
    decreases s.len() - i,
{
    if 0 <= i < s.len() && s[i] == ':' {
        skip_colons(s, i + 1)
    } else {
        i
    }
}

/// The index of the first whitespace character of `s` at or after `i`, or
/// its length.
pub open spec fn first_whitespace(s: Seq<char>, i: int) -> int
    decreases s.len() - i,
{
    if 0 <= i < s.len() && !is_unicode_whitespace(s[i]) {
        first_whitespace(s, i + 1)
    } else {
        i
    }
}

pub open spec fn is_digit(c: char) -> bool {
    '0' <= c && c <= '9'
}

pub open spec fn all_digits(ds: Seq<char>) -> bool {
    forall|i: int| 0 <= i < ds.len() ==> #[trigger] is_digit(ds[i])
}

pub open spec fn decimal_value(ds: Seq<char>) -> nat
    decreases ds.len(),
{
    if ds.len() == 0 {
        0
    } else {
        decimal_value(ds.drop_last()) * 10 + (ds.last() as u32 - '0' as u32) as nat
    }
}

/// `usize::from_str`: an optional `+` and at least one ASCII digit, whose
/// value fits in a `usize`.
pub open spec fn parse_usize(s: Seq<char>) -> Option<nat> {
    let ds = if s.len() > 0 && s[0] == '+' {
        s.drop_first()
    } else {
        s
    };
    if ds.len() > 0 && all_digits(ds) && decimal_value(ds) <= usize::MAX {
        Some(decimal_value(ds))
    } else {
        None
    }
}

/// What the verb and its trimmed argument ask for.
pub open spec fn classify(verb: Seq<char>, arg: Seq<char>) -> CommandView {
    let target = if arg.len() == 0 {
        None
    } else {
        Some(arg)
    };
    if verb == "w"@ || verb == "w!"@ {
        CommandView::Write { target, force: verb == "w!"@ }
    } else if verb == "wq"@ {
        CommandView::WriteQuit { target }
    } else if verb == "q"@ {
        CommandView::Quit
    } else if verb == "q!"@ {
        CommandView::QuitDiscard
    } else if verb == "bp"@ || verb == "bprevious"@ || verb == "previous-buffer"@ {
        CommandView::PreviousBuffer
    } else if verb == "bn"@ || verb == "bnext"@ || verb == "next-buffer"@ {
        CommandView::NextBuffer
    } else if verb == "bd"@ || verb == "bdelete"@ || verb == "buffer-delete"@ {
        CommandView::DeleteBuffer { force: false }
    } else if verb == "bd!"@ || verb == "bdelete!"@ || verb == "buffer-delete!"@ {
        CommandView::DeleteBuffer { force: true }
    } else if verb == "e"@ || verb == "e!"@ {
        CommandView::Edit { target, force: verb == "e!"@ }
    } else if verb == "term"@ || verb == "terminal"@ {
        CommandView::Terminal
    } else if verb == "ex"@ || verb == "explorer"@ {
        CommandView::Explorer
    } else if verb == "help"@ {
        CommandView::Help
    } else if verb == "theme"@ || verb == "themes"@ {
        CommandView::Themes
    } else if verb == "outline"@ {
        CommandView::Outline
    } else if verb == "uimode"@ {
        CommandView::UiMode
    } else if verb == "tabbar"@ {
        CommandView::TabBar
    } else if verb == "statusbar"@ {
        CommandView::StatusBar
    } else if verb == "config"@ {
        CommandView::ReloadConfig
    } else if verb.len() == 0 {
        CommandView::Nothing
    } else {
        match parse_usize(verb) {
            Some(n) => CommandView::GoToLine(n),
            None => CommandView::Unknown(verb),
        }
    }
}

/// The command a typed line asks for: `/` starts a search; otherwise leading
/// colons and whitespace are dropped, `%s` starts a substitution, and the
/// rest, without trailing whitespace, is a verb and an argument split at the
/// first whitespace character.
pub open spec fn spec_command(text: Seq<char>) -> CommandView {
    if text.len() > 0 && text[0] == '/' {
        CommandView::Search(text.drop_first())
    } else {
        let rest = text.subrange(skip_whitespace(text, skip_colons(text, 0)), text.len() as int);
        if rest.len() >= 2 && rest[0] == '%' && rest[1] == 's' {
            CommandView::Substitute(rest.subrange(2, rest.len() as int))
        } else {
            let line = rest.subrange(0, trim_end_index(rest, rest.len() as int));
            let w = first_whitespace(line, 0);
            let verb = line.subrange(0, w);
            let arg = if w < line.len() {
                trimmed(line.subrange(w + 1, line.len() as int))
            } else {
                Seq::empty()
            };
            classify(verb, arg)
        }
    }
}

proof fn lemma_skip_colons_bounds(s: Seq<char>, i: int)
    requires
        0 <= i <= s.len(),
    ensures
        i <= skip_colons(s, i) <= s.len(),
    decreases s.len() - i,
{
    if i < s.len() && s[i] == ':' {
        lemma_skip_colons_bounds(s, i + 1);
    }
}

proof fn lemma_first_whitespace_bounds(s: Seq<char>, i: int)
    requires
        0 <= i <= s.len(),
    ensures
        i <= first_whitespace(s, i) <= s.len(),
        first_whitespace(s, i) < s.len() ==> is_unicode_whitespace(s[first_whitespace(s, i)]),
    decreases s.len() - i,
{
    if i < s.len() && !is_unicode_whitespace(s[i]) {
        lemma_first_whitespace_bounds(s, i + 1);
    }
}

proof fn lemma_skip_ws_bounds(s: Seq<char>, i: int)
    requires
        0 <= i <= s.len(),
    ensures
        i <= skip_whitespace(s, i) <= s.len(),
    decreases s.len() - i,
{
    if i < s.len() && is_unicode_whitespace(s[i]) {
        lemma_skip_ws_bounds(s, i + 1);
    }
}

proof fn lemma_trim_end_index_bounds(s: Seq<char>, j: int)
    requires
        0 <= j <= s.len(),
    ensures
        0 <= trim_end_index(s, j) <= j,
    decreases j,
{
    if 0 < j && is_unicode_whitespace(s[j - 1]) {
        lemma_trim_end_index_bounds(s, j - 1);
    }
}

/// More digits never make a smaller number.
proof fn lemma_decimal_grows(ds: Seq<char>, i: int)
    requires
        0 <= i <= ds.len(),
    ensures
        decimal_value(ds.take(i)) <= decimal_value(ds),
    decreases ds.len() - i,
{
    if i < ds.len() {
        lemma_decimal_grows(ds, i + 1);
        assert(ds.take(i + 1).drop_last() =~= ds.take(i));
    } else {
        assert(ds.take(i) =~= ds);
    }
}

fn is_word(cs: &Vec<char>, word: &str) -> (r: bool)
    ensures
        r == (cs@ == word@),
{
    let w = chars_vec(word);
    chars_equal(cs.as_slice(), w.as_slice())
}

fn parse_usize_exec(s: &Vec<char>) -> (r: Option<usize>)
    ensures
        match parse_usize(s@) {
            Some(n) => r == Some(n as usize),
            None => r is None,
        },
{
    let start: usize = if s.len() > 0 && s[0] == '+' {
        1
    } else {
        0
    };
    let ghost ds = s@.subrange(start as int, s@.len() as int);
    assert(ds =~= if s@.len() > 0 && s@[0] == '+' {
        s@.drop_first()
    } else {
        s@
    });
    if start >= s.len() {
        return None;
    }
    let mut value: usize = 0;
    let mut i: usize = start;
    while i < s.len()
        invariant
            start <= i <= s@.len(),
            start < s@.len(),
            ds == s@.subrange(start as int, s@.len() as int),
            ds == if s@.len() > 0 && s@[0] == '+' {
                s@.drop_first()
            } else {
                s@
            },
            all_digits(ds.take(i - start)),
            value == decimal_value(ds.take(i - start)),
        decreases s.len() - i,
    {
        let c = s[i];
        assert(ds.take(i + 1 - start).drop_last() =~= ds.take(i - start));
        assert(ds[i - start] == c);
        if !('0' <= c && c <= '9') {
            assert(!all_digits(ds)) by {
                assert(!is_digit(ds[i - start]));
            }
            return None;
        }
        let digit = (c as u32 - '0' as u32) as usize;
        let next = match value.checked_mul(10) {
            Some(v) => v.checked_add(digit),
            None => None,
        };
        match next {
            Some(v) => {
                value = v;
            },
            None => {
                assert(decimal_value(ds.take(i + 1 - start)) == value * 10 + digit);
                assert(value * 10 + digit > usize::MAX);
                proof {
                    lemma_decimal_grows(ds, i + 1 - start);
                }
                return None;
            },
        }
        i += 1;
    }
    assert(ds.take(s@.len() - start) =~= ds);
    Some(value)
}

/// The verb's command, given its trimmed argument.
fn classify_exec(verb: &Vec<char>, arg: Vec<char>) -> (r: Command)
    ensures
        r@ == classify(verb@, arg@),
{
    let target = if arg.len() == 0 {
        None
    } else {
        Some(string_from_chars(arg.as_slice()))
    };
    assert(opt_chars(target) == if arg@.len() == 0 {
        None
    } else {
        Some(arg@)
    });
    if is_word(verb, "w") || is_word(verb, "w!") {
        Command::Write { target, force: is_word(verb, "w!") }
    } else if is_word(verb, "wq") {
        Command::WriteQuit { target }
    } else if is_word(verb, "q") {
        Command::Quit
    } else if is_word(verb, "q!") {
        Command::QuitDiscard
    } else if is_word(verb, "bp") || is_word(verb, "bprevious") || is_word(verb, "previous-buffer") {
        Command::PreviousBuffer
    } else if is_word(verb, "bn") || is_word(verb, "bnext") || is_word(verb, "next-buffer") {
        Command::NextBuffer
    } else if is_word(verb, "bd") || is_word(verb, "bdelete") || is_word(verb, "buffer-delete") {
        Command::DeleteBuffer { force: false }
    } else if is_word(verb, "bd!") || is_word(verb, "bdelete!") || is_word(verb, "buffer-delete!") {
        Command::DeleteBuffer { force: true }
    } else if is_word(verb, "e") || is_word(verb, "e!") {
        Command::Edit { target, force: is_word(verb, "e!") }
    } else if is_word(verb, "term") || is_word(verb, "terminal") {
        Command::Terminal
    } else if is_word(verb, "ex") || is_word(verb, "explorer") {
        Command::Explorer
    } else if is_word(verb, "help") {
        Command::Help
    } else if is_word(verb, "theme") || is_word(verb, "themes") {
        Command::Themes
    } else if is_word(verb, "outline") {
        Command::Outline
    } else if is_word(verb, "uimode") {
        Command::UiMode
    } else if is_word(verb, "tabbar") {
        Command::TabBar
    } else if is_word(verb, "statusbar") {
        Command::StatusBar
    } else if is_word(verb, "config") {
        Command::ReloadConfig
    } else if verb.len() == 0 {
        Command::Nothing
    } else {
        match parse_usize_exec(verb) {
            Some(n) => Command::GoToLine(n),
            None => Command::Unknown(string_from_chars(verb.as_slice())),
        }
    }
}

fn slice_chars(cs: &Vec<char>, from: usize, to: usize) -> (r: Vec<char>)
    requires
        from <= to <= cs@.len(),
    ensures
        r@ == cs@.subrange(from as int, to as int),
{
    let mut r: Vec<char> = Vec::new();
    let mut i: usize = from;
    while i < to
        invariant
            from <= i <= to <= cs@.len(),
            r@ == cs@.subrange(from as int, i as int),
        decreases to - i,
    {
        r.push(cs[i]);
        assert(r@ =~= cs@.subrange(from as int, i + 1));
        i += 1;
    }
    r
}

/// The command that the typed `text` asks for.
pub fn parse_command(text: &str) -> (r: Command)
    ensures
        r@ == spec_command(text@),
{
    let cs = chars_vec(text);
    let n = cs.len();
    if n > 0 && cs[0] == '/' {
        let query = slice_chars(&cs, 1, n);
        assert(query@ =~= cs@.drop_first());
        return Command::Search(string_from_chars(query.as_slice()));
    }
    let mut a: usize = 0;
    while a < n && cs[a] == ':'
        invariant
            a <= n,
            n == cs@.len(),
            skip_colons(cs@, a as int) == skip_colons(cs@, 0),
        decreases n - a,
    {
        a += 1;
    }
    proof {
        lemma_skip_ws_bounds(cs@, a as int);
    }
    let ghost colons = a;
    while a < n && is_whitespace(cs[a])
        invariant
            colons <= a <= n,
            n == cs@.len(),
            colons == skip_colons(cs@, 0),
            skip_whitespace(cs@, a as int) == skip_whitespace(cs@, colons as int),
        decreases n - a,
    {
        a += 1;
    }
    let rest = slice_chars(&cs, a, n);
    let m = rest.len();
    if m >= 2 && rest[0] == '%' && rest[1] == 's' {
        let pattern = slice_chars(&rest, 2, m);
        return Command::Substitute(string_from_chars(pattern.as_slice()));
    }
    let mut e: usize = m;
    while e > 0 && is_whitespace(rest[e - 1])
        invariant
            e <= m,
            m == rest@.len(),
            trim_end_index(rest@, e as int) == trim_end_index(rest@, m as int),
        decreases e,
    {
        e -= 1;
    }
    let line = slice_chars(&rest, 0, e);
    let mut w: usize = 0;
    while w < e && !is_whitespace(line[w])
        invariant
            w <= e,
            e == line@.len(),
            first_whitespace(line@, w as int) == first_whitespace(line@, 0),
        decreases e - w,
    {
        w += 1;
    }
    let verb = slice_chars(&line, 0, w);
    let arg: Vec<char> = if w < e {
        let tail = slice_chars(&line, w + 1, e);
        let t = crate::text::trim_exec(string_from_chars(tail.as_slice()).as_str());
        chars_vec(t.as_str())
    } else {
        Vec::new()
    };
    assert(arg@ == if (w as int) < line@.len() {
        trimmed(line@.subrange(w + 1, line@.len() as int))
    } else {
        Seq::empty()
    });
    classify_exec(&verb, arg)
}

/// Backspace on the command line: drops the last grapheme cluster, or
/// closes the line (`None`) once no more than the prompt is left.
pub fn command_backspace(command: &str) -> (r: Option<String>)
    ensures
        match r {
            Some(t) => utf8_len(command@) > 1 && t@ == command@.take(
                previous_boundary(command@, command@.len() as int),
            ),
            None => utf8_len(command@) <= 1,
        },
{
    proof {
        lemma_utf8_len_is_encoding(command@);
    }
    if command.as_bytes().len() > 1 {
        let cs = chars_vec(command);
        let p = previous_boundary_exec(&cs, cs.len());
        let kept = chars_between(&cs, 0, p);
        assert(kept@ =~= command@.take(p as int));
        Some(string_from_chars(kept.as_slice()))
    } else {
        None
    }
}

/// Text typed on the command line joins its end, without line breaks.
pub fn command_type(command: &mut String, text: &str)
    ensures
        final(command)@ == old(command)@ + without_line_breaks(text@),
{
    let t = without_line_breaks_exec(text);
    let mut i: usize = 0;
    while i < t.len()
        invariant
            i <= t@.len(),
            command@ == old(command)@ + t@.take(i as int),
        decreases t.len() - i,
    {
        push_char(command, t[i]);
        assert(t@.take(i + 1) =~= t@.take(i as int).push(t@[i as int]));
        i += 1;
    }
    assert(t@.take(t@.len() as int) =~= t@);
}

/// An input-method edit of the command line: the UTF-16 `range` (the end of
/// the line when there is none) is replaced by `text`.
pub fn command_replace(command: &str, range: Option<(usize, usize)>, text: &str) -> (r: String)
    requires
        match range {
            Some((a, b)) => a <= b,
            None => true,
        },
    ensures
        ({
            let (start, end) = replaced_span(command@, command@.len() as int, range);
            r@ == command@.take(start) + text@ + command@.skip(end)
        }),
{
    let cs = chars_vec(command);
    let ghost s = cs@;
    let (start, end) = match range {
        Some((a, b)) => {
            let start = char_index(&cs, utf8_offset(command, a));
            let end = char_index(&cs, utf8_offset(command, b));
            proof {
                lemma_longest_is_prefix_utf16(s, a as int);
                lemma_longest_is_prefix_utf16(s, b as int);
                lemma_boundary_index(s, longest_within_utf16(s, a as int) as int);
                lemma_boundary_index(s, longest_within_utf16(s, b as int) as int);
                lemma_longest_utf16_monotone(s, a as int, b as int);
            }
            (start, end)
        },
        None => (cs.len(), cs.len()),
    };
    let mut v = chars_between(&cs, 0, start);
    let mut middle = chars_vec(text);
    let mut tail = chars_between(&cs, end, cs.len());
    let ghost mv = middle@;
    v.append(&mut middle);
    v.append(&mut tail);
    assert(v@ =~= s.take(start as int) + mv + s.skip(end as int));
    string_from_chars(v.as_slice())
}

} // verus!
