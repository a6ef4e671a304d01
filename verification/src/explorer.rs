//! The file explorer: a directory listing edited as text, and the plan of
//! renames, creations and deletions that committing the edit performs.
use vstd::prelude::*;
use vstd::string::{StrSliceExecFns, StringExecFns};

use crate::buffer::{Buffer, Line, line_texts, string_texts};
use crate::image_assets::{join_exec, join_path};
use crate::text::{chars_equal, chars_vec, string_from_chars};
use crate::text_input::{utf16_len, utf16_width_exec};

verus! {

/// What an explorer commit did, by full path.
#[derive(Debug, Default)]
pub struct CommitReport {
    pub renamed: Vec<(String, String)>,
    pub deleted: Vec<String>,
    pub created: Vec<String>,
}

impl CommitReport {
    pub open spec fn renamed_views(&self) -> Seq<(Seq<char>, Seq<char>)> {
        self.renamed@.map_values(|r: (String, String)| (r.0@, r.1@))
    }
}

/// The kind of a directory entry, as its metadata (not its target) reports it.
#[derive(Clone, Copy, Debug, PartialEq, Eq, Structural)]
pub enum EntryKind {
    File,
    Directory,
    Symlink,
    Other,
}

/// A directory entry as listed: its name and kind.
#[derive(Clone, Debug)]
pub struct Entry {
    pub name: String,
    pub kind: EntryKind,
}

/// Why an explorer edit or navigation is refused.
#[derive(Debug, Clone, Copy, PartialEq, Eq)]
pub enum ExplorerError {
    /// Pending changes must be committed or undone before navigating or reloading.
    PendingChanges,
    /// Two lines share an identity; reload before editing.
    DuplicateIdentity,
    /// Use a single name, with an optional trailing slash for a directory.
    InvalidName,
    /// Two lines name the same destination.
    DuplicateDestination,
    /// An existing entry cannot change between file and directory.
    TypeChange,
    /// On Windows: a name that Windows forbids (see `spec_invalid_windows_name`).
    InvalidWindowsName,
}

/// The explorer's trash directory name, hidden from listings and reserved.
pub open spec fn trash_name() -> Seq<char> {
    seq!['.', 'r', 'o', 'c', 'k', 'd', 'o', 'w', 'n', '-', 't', 'r', 'a', 's', 'h']
}

pub open spec fn spec_reserved_name(name: Seq<char>) -> bool {
    name == trash_name()
}

/// Names reserved for the explorer's own recovery data.
pub fn reserved_name(name: &str) -> (r: bool)
    ensures
        r == spec_reserved_name(name@),
{
    let trash: [char; 15] = ['.', 'r', 'o', 'c', 'k', 'd', 'o', 'w', 'n', '-', 't', 'r', 'a', 's', 'h'];
    assert(trash@ =~= trash_name());
    chars_equal(chars_vec(name).as_slice(), &trash)
}

/// A single entry name: nonempty, not `.`, `..` or the trash, and free of
/// `/`, NUL and line breaks.
pub open spec fn valid_name(name: Seq<char>) -> bool {
    &&& name.len() > 0
    &&& name != seq!['.']
    &&& name != seq!['.', '.']
    &&& !spec_reserved_name(name)
    &&& forall|i: int|
        0 <= i < name.len() ==> {
            let c = #[trigger] name[i];
            c != '/' && c != '\0' && c != '\n' && c != '\r'
        }
}

/// Characters Windows forbids in a file name: control characters and
/// `\ : < > " | ? *`.
pub open spec fn windows_forbidden(c: char) -> bool {
    (c as u32) <= 0x1f || c == '\\' || c == ':' || c == '<' || c == '>' || c == '"' || c == '|' || c
        == '?' || c == '*'
}

/// The text before the first `.`.
pub open spec fn before_dot(s: Seq<char>) -> Seq<char>
    decreases s.len(),
{
    if s.len() == 0 {
        s
    } else if s[0] == '.' {
        Seq::empty()
    } else {
        seq![s[0]] + before_dot(s.drop_first())
    }
}

pub open spec fn trim_end_spaces(s: Seq<char>) -> Seq<char>
    decreases s.len(),
{
    if s.len() > 0 && s.last() == ' ' {
        trim_end_spaces(s.drop_last())
    } else {
        s
    }
}

/// The text in upper case, as `str::to_uppercase` gives it (Unicode's
/// mappings, which take tables to state).
pub uninterp spec fn uppercase(s: Seq<char>) -> Seq<char>;

/// `str::to_uppercase`.
#[verifier::external_body]
fn to_uppercase(s: &str) -> (r: String)
    ensures
        r@ == uppercase(s@),
{
    s.to_uppercase()
}

/// A Windows device name: `CON`, `PRN`, `AUX`, `NUL`, `CONIN$`, `CONOUT$`,
/// `CLOCK$`, or `COM`/`LPT` with one digit 1-9 (or superscript 1-3).
pub open spec fn device_stem(u: Seq<char>) -> bool {
    ||| u == seq!['C', 'O', 'N'] || u == seq!['P', 'R', 'N'] || u == seq!['A', 'U', 'X'] || u == seq![
        'N',
        'U',
        'L',
    ]
    ||| u == seq!['C', 'O', 'N', 'I', 'N', '$'] || u == seq!['C', 'O', 'N', 'O', 'U', 'T', '$'] || u
        == seq!['C', 'L', 'O', 'C', 'K', '$']
    ||| u.len() == 4 && (u.take(3) == seq!['C', 'O', 'M'] || u.take(3) == seq!['L', 'P', 'T']) && (('1'
        <= u[3] && u[3] <= '9') || u[3] == '\u{b9}' || u[3] == '\u{b2}' || u[3] == '\u{b3}')
}

/// A name Windows cannot hold: it ends in `.` or a space, holds a forbidden
/// character, is longer than 255 UTF-16 units, or its stem (before the
/// first `.`, without trailing spaces, in upper case) is a device name,
/// which stays reserved with any extension.
pub open spec fn spec_invalid_windows_name(name: Seq<char>) -> bool {
    ||| name.len() > 0 && (name.last() == '.' || name.last() == ' ')
    ||| exists|i: int| 0 <= i < name.len() && windows_forbidden(#[trigger] name[i])
    ||| utf16_len(name) > 255
    ||| device_stem(uppercase(trim_end_spaces(before_dot(name))))
}

fn device_stem_exec(u: &Vec<char>) -> (r: bool)
    ensures
        r == device_stem(u@),
{
    let s = u.as_slice();
    if chars_equal(s, &['C', 'O', 'N']) || chars_equal(s, &['P', 'R', 'N']) || chars_equal(s, &['A', 'U', 'X'])
        || chars_equal(s, &['N', 'U', 'L']) || chars_equal(s, &['C', 'O', 'N', 'I', 'N', '$'])
        || chars_equal(s, &['C', 'O', 'N', 'O', 'U', 'T', '$']) || chars_equal(s, &['C', 'L', 'O', 'C', 'K', '$']) {
        return true;
    }
    if u.len() != 4 {
        return false;
    }
    let head = crate::picker::chars_between(u, 0, 3);
    assert(head@ =~= u@.take(3));
    let prefix = chars_equal(head.as_slice(), &['C', 'O', 'M']) || chars_equal(head.as_slice(), &['L', 'P', 'T']);
    let d = u[3];
    prefix && (('1' <= d && d <= '9') || d == '\u{b9}' || d == '\u{b2}' || d == '\u{b3}')
}

/// Whether Windows forbids `name` as a file name.
pub fn invalid_windows_name(name: &str) -> (r: bool)
    ensures
        r == spec_invalid_windows_name(name@),
{
    let cs = chars_vec(name);
    let ghost s = cs@;
    let n = cs.len();
    if n > 0 && (cs[n - 1] == '.' || cs[n - 1] == ' ') {
        return true;
    }
    let mut units: usize = 0;
    let mut i: usize = 0;
    while i < n
        invariant
            i <= n,
            n == s.len(),
            cs@ == s,
            s == name@,
            forall|k: int| 0 <= k < i ==> !windows_forbidden(#[trigger] s[k]),
            units == crate::text_input::utf16_len(s.take(i as int)),
            units <= 255,
        decreases n - i,
    {
        let c = cs[i];
        if (c as u32) <= 0x1f || c == '\\' || c == ':' || c == '<' || c == '>' || c == '"' || c == '|'
            || c == '?' || c == '*' {
            assert(windows_forbidden(s[i as int]));
            return true;
        }
        proof {
            crate::text_input::lemma_take_step(s, i as int);
        }
        units = units + utf16_width_exec(c);
        i += 1;
        if units > 255 {
            proof {
                assert(s.take(n as int) =~= s);
                if i < n {
                    crate::text_input::lemma_prefix_grows(s, i as int, n as int);
                }
            }
            return true;
        }
    }
    assert(s.take(n as int) =~= s);
    // The stem: up to the first dot, without trailing spaces.
    let mut end: usize = 0;
    while end < n && cs[end] != '.'
        invariant
            end <= n,
            n == s.len(),
            cs@ == s,
            forall|k: int| 0 <= k < end ==> s[k] != '.',
        decreases n - end,
    {
        end += 1;
    }
    proof {
        lemma_before_dot(s, end as int);
    }
    let mut stop = end;
    while stop > 0 && cs[stop - 1] == ' '
        invariant
            stop <= end <= n,
            n == cs@.len(),
            cs@ == s,
            trim_end_spaces(s.take(stop as int)) == trim_end_spaces(s.take(end as int)),
        decreases stop,
    {
        assert(s.take(stop as int).drop_last() =~= s.take(stop - 1));
        stop -= 1;
    }
    proof {
        assert(stop > 0 ==> s.take(stop as int).last() != ' ');
    }
    let stem = crate::picker::chars_between(&cs, 0, stop);
    assert(stem@ =~= s.take(stop as int));
    let upper = to_uppercase(string_from_chars(stem.as_slice()).as_str());
    device_stem_exec(&chars_vec(upper.as_str()))
}

proof fn lemma_before_dot(s: Seq<char>, end: int)
    requires
        0 <= end <= s.len(),
        forall|k: int| 0 <= k < end ==> s[k] != '.',
        end < s.len() ==> s[end] == '.',
    ensures
        before_dot(s) == s.take(end),
    decreases s.len(),
{
    if s.len() > 0 && end > 0 {
        lemma_before_dot(s.drop_first(), end - 1);
        assert(s.take(end) =~= seq![s[0]] + s.drop_first().take(end - 1));
    } else if s.len() > 0 {
        assert(s.take(end) =~= Seq::<char>::empty());
    }
}

/// An entry name as a platform takes it: `spec_parse_name`, and on Windows
/// also refused when Windows forbids the name.
pub open spec fn spec_parse_name_on(text: Seq<char>, windows: bool) -> Result<(Seq<char>, bool), ExplorerError> {
    match spec_parse_name(text) {
        Ok((name, directory)) => if windows && spec_invalid_windows_name(name) {
            Err(ExplorerError::InvalidWindowsName)
        } else {
            Ok((name, directory))
        },
        Err(e) => Err(e),
    }
}

/// `parse_name`, with Windows' own file name rules when `windows`.
pub fn parse_name_on(text: &str, windows: bool) -> (r: Result<(String, bool), ExplorerError>)
    ensures
        match r {
            Ok((name, directory)) => spec_parse_name_on(text@, windows) == Ok::<_, ExplorerError>(
                (name@, directory),
            ),
            Err(e) => spec_parse_name_on(text@, windows) == Err::<(Seq<char>, bool), _>(e),
        },
{
    match parse_name(text) {
        Ok((name, directory)) => {
            if windows && invalid_windows_name(name.as_str()) {
                Err(ExplorerError::InvalidWindowsName)
            } else {
                Ok((name, directory))
            }
        },
        Err(e) => Err(e),
    }
}

/// Whether a name read from a directory is listed: `Ok(false)` skips the
/// trash, a name the explorer cannot show is refused with its error, and any
/// other name is listed.
pub open spec fn spec_listed_name(name: Seq<char>, windows: bool) -> Result<bool, ExplorerError> {
    if spec_reserved_name(name) {
        Ok(false)
    } else {
        match spec_parse_name_on(name, windows) {
            Ok(_) => Ok(true),
            Err(e) => Err(e),
        }
    }
}

pub fn listed_name(name: &str, windows: bool) -> (r: Result<bool, ExplorerError>)
    ensures
        r == spec_listed_name(name@, windows),
        r == Ok::<bool, ExplorerError>(true) && !(name@.len() > 0 && name@.last() == '/') ==> valid_name(
            name@,
        ),
{
    if reserved_name(name) {
        return Ok(false);
    }
    match parse_name_on(name, windows) {
        Ok(_) => Ok(true),
        Err(e) => Err(e),
    }
}

/// An explorer line names an entry, with a trailing `/` for a directory.
pub open spec fn spec_parse_name(text: Seq<char>) -> Result<(Seq<char>, bool), ExplorerError> {
    let directory = text.len() > 0 && text.last() == '/';
    let name = if directory {
        text.drop_last()
    } else {
        text
    };
    if valid_name(name) {
        Ok((name, directory))
    } else {
        Err(ExplorerError::InvalidName)
    }
}

pub fn parse_name(text: &str) -> (r: Result<(String, bool), ExplorerError>)
    ensures
        match r {
            Ok((name, directory)) => spec_parse_name(text@) == Ok::<_, ExplorerError>(
                (name@, directory),
            ),
            Err(e) => spec_parse_name(text@) == Err::<(Seq<char>, bool), _>(e),
        },
{
    let cs = chars_vec(text);
    let directory = cs.len() > 0 && cs[cs.len() - 1] == '/';
    let n = if directory {
        cs.len() - 1
    } else {
        cs.len()
    };
    let mut name: Vec<char> = Vec::new();
    let mut i: usize = 0;
    while i < n
        invariant
            i <= n <= cs@.len(),
            cs@ == text@,
            directory == (text@.len() > 0 && text@.last() == '/'),
            n == (if directory {
                cs@.len() - 1
            } else {
                cs@.len() as int
            }),
            name@ == cs@.take(i as int),
            forall|k: int|
                0 <= k < i ==> {
                    let c = #[trigger] cs@[k];
                    c != '/' && c != '\0' && c != '\n' && c != '\r'
                },
        decreases n - i,
    {
        let c = cs[i];
        if c == '/' || c == '\0' || c == '\n' || c == '\r' {
            let ghost nm = if directory {
                text@.drop_last()
            } else {
                text@
            };
            assert(nm[i as int] == c);
            assert(!valid_name(nm));
            return Err(ExplorerError::InvalidName);
        }
        name.push(c);
        assert(name@ =~= cs@.take(i + 1));
        i += 1;
    }
    assert(name@ =~= (if directory {
        text@.drop_last()
    } else {
        text@
    }));
    let dot: [char; 1] = ['.'];
    let dots: [char; 2] = ['.', '.'];
    let trash: [char; 15] = ['.', 'r', 'o', 'c', 'k', 'd', 'o', 'w', 'n', '-', 't', 'r', 'a', 's', 'h'];
    assert(dot@ =~= seq!['.']);
    assert(dots@ =~= seq!['.', '.']);
    assert(trash@ =~= trash_name());
    if name.len() == 0 || chars_equal(name.as_slice(), &dot) || chars_equal(name.as_slice(), &dots)
        || chars_equal(name.as_slice(), &trash) {
        return Err(ExplorerError::InvalidName);
    }
    Ok((string_from_chars(name.as_slice()), directory))
}

impl Entry {
    /// A copy with the same name and kind.
    pub fn copy(&self) -> (r: Entry)
        ensures
            r == *self,
    {
        Entry { name: self.name.clone(), kind: self.kind }
    }

    pub open spec fn spec_display_name(&self) -> Seq<char> {
        if self.kind == EntryKind::Directory {
            self.name@.push('/')
        } else {
            self.name@
        }
    }

    /// The entry's line in the explorer: directories end in `/`.
    pub fn display_name(&self) -> (r: String)
        ensures
            r@ == self.spec_display_name(),
    {
        let mut r = self.name.clone();
        if self.kind == EntryKind::Directory {
            crate::text::push_char(&mut r, '/');
        }
        r
    }
}

pub open spec fn is_dir(e: Entry) -> bool {
    e.kind == EntryKind::Directory
}

/// The entries of kind `directory` (or of any other kind), in order.
pub open spec fn of_kind(es: Seq<Entry>, directory: bool) -> Seq<Entry>
    decreases es.len(),
{
    if es.len() == 0 {
        Seq::empty()
    } else {
        let r = of_kind(es.drop_last(), directory);
        if is_dir(es.last()) == directory {
            r.push(es.last())
        } else {
            r
        }
    }
}

/// Directories first, then everything else, each keeping the listing's order.
pub open spec fn dirs_first(es: Seq<Entry>) -> Seq<Entry> {
    of_kind(es, true) + of_kind(es, false)
}

/// The first entry recorded for a line identity.
pub open spec fn entry_for(entries: Seq<(u64, Entry)>, id: u64) -> Option<Entry>
    decreases entries.len(),
{
    if entries.len() == 0 {
        None
    } else if entries[0].0 == id {
        Some(entries[0].1)
    } else {
        entry_for(entries.drop_first(), id)
    }
}

/// The line text without one trailing `/`.
pub open spec fn strip_slash(t: Seq<char>) -> Seq<char> {
    if t.len() > 0 && t.last() == '/' {
        t.drop_last()
    } else {
        t
    }
}

pub open spec fn count_nonempty(lines: Seq<Line>) -> nat
    decreases lines.len(),
{
    if lines.len() == 0 {
        0
    } else {
        count_nonempty(lines.drop_last()) + if lines.last().text@.len() > 0 {
            1nat
        } else {
            0nat
        }
    }
}

/// A line that names an entry: what the explorer intends for it.
#[derive(Debug, Clone)]
pub struct Desired {
    pub id: u64,
    pub name: String,
    pub directory: bool,
}

pub struct Explorer {
    pub buffer: Buffer,
    /// The listed directory.
    pub directory: String,
    /// The directory whose trash receives deletions.
    pub workspace: String,
    /// The entry behind each line identity of the listing.
    pub entries: Vec<(u64, Entry)>,
}

pub open spec fn entry_names(es: Seq<Entry>) -> Seq<Seq<char>> {
    es.map_values(|e: Entry| e.spec_display_name())
}

impl Explorer {
    pub open spec fn entry_of(&self, id: u64) -> Option<Entry> {
        entry_for(self.entries@, id)
    }

    /// A line whose text still names its entry.
    pub open spec fn line_unchanged(&self, line: Line) -> bool {
        match self.entry_of(line.id) {
            Some(e) => strip_slash(line.text@) == e.name@,
            None => false,
        }
    }

    /// The listing was edited: text changed since it was listed, lines were
    /// added or removed, or a line no longer names its entry.
    pub open spec fn spec_dirty(&self) -> bool {
        ||| self.buffer.spec_dirty()
        ||| count_nonempty(self.buffer.lines@) != self.entries@.len()
        ||| exists|i: int|
            0 <= i < self.buffer.lines@.len() && (#[trigger] self.buffer.lines@[i]).text@.len() > 0
                && !self.line_unchanged(self.buffer.lines@[i])
    }

    /// The explorer shows `entries` as listed afresh: directories first, one
    /// line per entry (a single empty line for none), line `i` carrying
    /// identity `i + 1` bound to its entry, and the buffer saved as shown.
    pub open spec fn spec_shows(&self, entries: Seq<Entry>) -> bool {
        &&& self.buffer.texts() == if entries.len() == 0 {
            seq![Seq::<char>::empty()]
        } else {
            entry_names(dirs_first(entries))
        }
        &&& self.entries@.len() == entries.len()
        &&& forall|i: int|
            0 <= i < self.entries@.len() ==> (#[trigger] self.entries@[i]).0 == i + 1
                && self.entries@[i].1 == dirs_first(entries)[i]
        &&& forall|i: int| 0 <= i < self.buffer.lines@.len() ==> #[trigger] self.buffer.lines@[i].id == i + 1
        &&& !self.buffer.spec_dirty()
    }

    /// The listing of `entries` (in name order) for `directory`: directories
    /// first, one line per entry, each line's identity bound to its entry.
    pub fn listing(directory: String, workspace: String, entries: Vec<Entry>) -> (x: Explorer)
        requires
            entries@.len() < u64::MAX,
        ensures
            x.directory == directory,
            x.workspace == workspace,
            x.buffer.texts() == if entries@.len() == 0 {
                seq![Seq::<char>::empty()]
            } else {
                entry_names(dirs_first(entries@))
            },
            x.entries@.len() == entries@.len(),
            forall|i: int|
                0 <= i < x.entries@.len() ==> (#[trigger] x.entries@[i]).0 == i + 1 && x.entries@[i].1
                    == dirs_first(entries@)[i],
            forall|i: int| 0 <= i < x.buffer.lines@.len() ==> #[trigger] x.buffer.lines@[i].id == i + 1,
            !x.buffer.spec_dirty(),
            x.spec_shows(entries@),
            listable(entries@) ==> !x.spec_dirty(),
    {
        let ghost es = entries@;
        let mut sorted: Vec<Entry> = Vec::new();
        let mut i: usize = 0;
        while i < entries.len()
            invariant
                i <= entries@.len(),
                es == entries@,
                sorted@ == of_kind(es.take(i as int), true),
            decreases entries.len() - i,
        {
            proof {
                assert(es.take(i + 1).drop_last() =~= es.take(i as int));
            }
            if entries[i].kind == EntryKind::Directory {
                sorted.push(entries[i].copy());
            }
            i += 1;
        }
        assert(es.take(es.len() as int) =~= es);
        let ghost dirs = sorted@;
        let mut i: usize = 0;
        while i < entries.len()
            invariant
                i <= entries@.len(),
                es == entries@,
                dirs == of_kind(es, true),
                sorted@ == dirs + of_kind(es.take(i as int), false),
            decreases entries.len() - i,
        {
            proof {
                assert(es.take(i + 1).drop_last() =~= es.take(i as int));
            }
            if entries[i].kind != EntryKind::Directory {
                sorted.push(entries[i].copy());
            }
            i += 1;
        }
        assert(sorted@ =~= dirs_first(es));
        proof {
            lemma_dirs_first_len(es);
        }
        let mut texts: Vec<String> = Vec::new();
        let mut ids: Vec<(u64, Entry)> = Vec::new();
        let mut k: usize = 0;
        while k < sorted.len()
            invariant
                k <= sorted@.len() == es.len() < u64::MAX,
                sorted@ == dirs_first(es),
                string_texts(texts@) == entry_names(sorted@).take(k as int),
                ids@.len() == k,
                forall|j: int| 0 <= j < k ==> (#[trigger] ids@[j]).0 == j + 1 && ids@[j].1 == sorted@[j],
            decreases sorted.len() - k,
        {
            let ghost prev = string_texts(texts@);
            texts.push(sorted[k].display_name());
            assert(string_texts(texts@) =~= prev.push(sorted@[k as int].spec_display_name()));
            assert(entry_names(sorted@).take(k + 1) =~= entry_names(sorted@).take(k as int).push(
                sorted@[k as int].spec_display_name(),
            ));
            ids.push((k as u64 + 1, sorted[k].copy()));
            k += 1;
        }
        assert(entry_names(sorted@).take(sorted@.len() as int) =~= entry_names(sorted@));
        let buffer = Buffer::from_lines(texts);
        let x = Explorer { buffer, directory, workspace, entries: ids };
        proof {
            if listable(es) {
                lemma_shown_listing_is_clean(x, es);
            }
        }
        x
    }

    fn entry_index(&self, id: u64) -> (r: Option<usize>)
        ensures
            match r {
                Some(i) => i < self.entries@.len() && self.entry_of(id) == Some(
                    self.entries@[i as int].1,
                ),
                None => self.entry_of(id) is None,
            },
    {
        let mut i: usize = 0;
        assert(self.entries@.subrange(0, self.entries@.len() as int) =~= self.entries@);
        while i < self.entries.len()
            invariant
                i <= self.entries@.len(),
                entry_for(self.entries@.subrange(i as int, self.entries@.len() as int), id)
                    == self.entry_of(id),
            decreases self.entries.len() - i,
        {
            let ghost rest = self.entries@.subrange(i as int, self.entries@.len() as int);
            assert(rest.drop_first() =~= self.entries@.subrange(i + 1, self.entries@.len() as int));
            if self.entries[i].0 == id {
                return Some(i);
            }
            i += 1;
        }
        None
    }

    fn line_unchanged_exec(&self, i: usize) -> (r: bool)
        requires
            i < self.buffer.lines@.len(),
        ensures
            r == self.line_unchanged(self.buffer.lines@[i as int]),
    {
        let line = &self.buffer.lines[i];
        match self.entry_index(line.id) {
            None => false,
            Some(k) => {
                let tc = chars_vec(line.text.as_str());
                let n = if tc.len() > 0 && tc[tc.len() - 1] == '/' {
                    tc.len() - 1
                } else {
                    tc.len()
                };
                let mut stripped: Vec<char> = Vec::new();
                let mut j: usize = 0;
                while j < n
                    invariant
                        j <= n <= tc@.len(),
                        stripped@ == tc@.take(j as int),
                    decreases n - j,
                {
                    stripped.push(tc[j]);
                    assert(stripped@ =~= tc@.take(j + 1));
                    j += 1;
                }
                assert(stripped@ =~= strip_slash(line.text@));
                let ec = chars_vec(self.entries[k].1.name.as_str());
                chars_equal(stripped.as_slice(), ec.as_slice())
            },
        }
    }

    /// Whether the listing has pending filesystem edits.
    pub fn dirty(&self) -> (r: bool)
        ensures
            r == self.spec_dirty(),
    {
        if self.buffer.dirty() {
            return true;
        }
        let lines = &self.buffer.lines;
        let mut visible: usize = 0;
        let mut i: usize = 0;
        while i < lines.len()
            invariant
                i <= lines@.len(),
                lines@ == self.buffer.lines@,
                visible == count_nonempty(lines@.take(i as int)),
                visible <= i,
                forall|k: int|
                    0 <= k < i && (#[trigger] lines@[k]).text@.len() > 0 ==> self.line_unchanged(
                        lines@[k],
                    ),
            decreases lines.len() - i,
        {
            assert(lines@.take(i + 1).drop_last() =~= lines@.take(i as int));
            if lines[i].text.as_str().unicode_len() > 0 {
                if !self.line_unchanged_exec(i) {
                    return true;
                }
                visible += 1;
            }
            i += 1;
        }
        assert(lines@.take(lines@.len() as int) =~= lines@);
        visible != self.entries.len()
    }

    /// Navigating or reloading would discard pending edits.
    pub fn require_clean(&self) -> (r: Result<(), ExplorerError>)
        ensures
            r is Ok <==> !self.spec_dirty(),
            r matches Err(e) ==> e == ExplorerError::PendingChanges,
    {
        if self.dirty() {
            return Err(ExplorerError::PendingChanges);
        }
        Ok(())
    }
}

/// Entries as a directory read gives them: each a single valid name.
pub open spec fn listable(es: Seq<Entry>) -> bool {
    forall|j: int| 0 <= j < es.len() ==> valid_name(#[trigger] es[j].name@)
}

proof fn lemma_of_kind_listable(es: Seq<Entry>, directory: bool)
    requires
        listable(es),
    ensures
        listable(of_kind(es, directory)),
    decreases es.len(),
{
    if es.len() > 0 {
        assert(listable(es.drop_last())) by {
            assert forall|j: int| 0 <= j < es.drop_last().len() implies valid_name(
                #[trigger] es.drop_last()[j].name@,
            ) by {
                assert(es.drop_last()[j] == es[j]);
            }
        }
        lemma_of_kind_listable(es.drop_last(), directory);
        assert(valid_name(es[es.len() - 1].name@));
    }
}

proof fn lemma_count_nonempty_all(lines: Seq<Line>)
    requires
        forall|i: int| 0 <= i < lines.len() ==> (#[trigger] lines[i]).text@.len() > 0,
    ensures
        count_nonempty(lines) == lines.len(),
    decreases lines.len(),
{
    if lines.len() > 0 {
        assert forall|i: int| 0 <= i < lines.drop_last().len() implies (
        #[trigger] lines.drop_last()[i]).text@.len() > 0 by {
            assert(lines.drop_last()[i] == lines[i]);
        }
        lemma_count_nonempty_all(lines.drop_last());
        assert(lines.last().text@.len() > 0);
    }
}

proof fn lemma_entry_for_numbered(entries: Seq<(u64, Entry)>, base: int, id: u64)
    requires
        forall|j: int| 0 <= j < entries.len() ==> (#[trigger] entries[j]).0 == base + j + 1,
        base < id <= base + entries.len(),
    ensures
        entry_for(entries, id) == Some(entries[id - base - 1].1),
    decreases entries.len(),
{
    if entries[0].0 != id {
        let rest = entries.drop_first();
        assert forall|j: int| 0 <= j < rest.len() implies (#[trigger] rest[j]).0 == (base + 1) + j + 1 by {
            assert(rest[j] == entries[j + 1]);
        }
        lemma_entry_for_numbered(rest, base + 1, id);
        assert(rest[id - (base + 1) - 1] == entries[id - base - 1]);
    }
}

/// An explorer showing a fresh listing of well-named entries has nothing pending.
proof fn lemma_shown_listing_is_clean(x: Explorer, es: Seq<Entry>)
    requires
        x.spec_shows(es),
        listable(es),
    ensures
        !x.spec_dirty(),
{
    let lines = x.buffer.lines@;
    assert(lines.len() == x.buffer.texts().len());
    if es.len() == 0 {
        assert(lines.len() == 1);
        assert(lines[0].text@ == x.buffer.texts()[0]);
        assert(lines.drop_last().len() == 0);
        assert(count_nonempty(lines) == 0) by {
            assert(count_nonempty(lines.drop_last()) == 0);
        }
        assert forall|i: int| 0 <= i < lines.len() implies (#[trigger] lines[i]).text@.len() == 0 by {
            assert(lines[i].text@ == x.buffer.texts()[i]);
        }
    } else {
        let d = dirs_first(es);
        lemma_dirs_first_len(es);
        lemma_of_kind_listable(es, true);
        lemma_of_kind_listable(es, false);
        assert(listable(d)) by {
            assert forall|j: int| 0 <= j < d.len() implies valid_name(#[trigger] d[j].name@) by {
                if j < of_kind(es, true).len() {
                    assert(d[j] == of_kind(es, true)[j]);
                } else {
                    assert(d[j] == of_kind(es, false)[j - of_kind(es, true).len()]);
                }
            }
        }
        assert forall|i: int| 0 <= i < lines.len() implies (#[trigger] lines[i]).text@ == d[i].spec_display_name() by {
            assert(lines[i].text@ == x.buffer.texts()[i]);
        }
        assert forall|i: int| 0 <= i < lines.len() implies (#[trigger] lines[i]).text@.len() > 0 by {
            assert(lines[i].text@ == d[i].spec_display_name());
            assert(valid_name(d[i].name@));
        }
        lemma_count_nonempty_all(lines);
        assert forall|i: int| 0 <= i < lines.len() implies x.line_unchanged(#[trigger] lines[i]) by {
            lemma_entry_for_numbered(x.entries@, 0, lines[i].id);
            let e = d[i];
            assert(x.entries@[i].1 == e);
            assert(valid_name(e.name@));
            let t = e.spec_display_name();
            assert(lines[i].text@ == t);
            if e.kind == EntryKind::Directory {
                assert(t.drop_last() =~= e.name@);
            } else {
                assert(e.name@[e.name@.len() - 1] != '/');
            }
        }
    }
}

proof fn lemma_dirs_first_len(es: Seq<Entry>)
    ensures
        dirs_first(es).len() == es.len(),
    decreases es.len(),
{
    if es.len() > 0 {
        lemma_dirs_first_len(es.drop_last());
    }
}

pub open spec fn desired_views(d: Seq<Desired>) -> Seq<(u64, Seq<char>, bool)> {
    d.map_values(|x: Desired| (x.id, x.name@, x.directory))
}

impl Explorer {
    /// The entries the edited listing asks for, line by line from `i`, given
    /// the identities and names already taken.
    pub open spec fn desired_from(
        &self,
        i: int,
        ids: Seq<u64>,
        names: Seq<Seq<char>>,
        acc: Seq<(u64, Seq<char>, bool)>,
    ) -> Result<Seq<(u64, Seq<char>, bool)>, ExplorerError>
        decreases self.buffer.lines@.len() - i,
    {
        if i < 0 || i >= self.buffer.lines@.len() {
            Ok(acc)
        } else {
            let line = self.buffer.lines@[i];
            if ids.contains(line.id) {
                Err(ExplorerError::DuplicateIdentity)
            } else if line.text@.len() == 0 {
                self.desired_from(i + 1, ids.push(line.id), names, acc)
            } else {
                match spec_parse_name(line.text@) {
                    Err(e) => Err(e),
                    Ok((name, directory)) => if names.contains(name) {
                        Err(ExplorerError::DuplicateDestination)
                    } else if (match self.entry_of(line.id) {
                        Some(e) => directory != is_dir(e),
                        None => false,
                    }) {
                        Err(ExplorerError::TypeChange)
                    } else {
                        self.desired_from(
                            i + 1,
                            ids.push(line.id),
                            names.push(name),
                            acc.push((line.id, name, directory)),
                        )
                    },
                }
            }
        }
    }

    pub open spec fn spec_desired(&self) -> Result<Seq<(u64, Seq<char>, bool)>, ExplorerError> {
        self.desired_from(0, Seq::empty(), Seq::empty(), Seq::empty())
    }

    /// The entries that the edited listing asks for: one per nonempty line,
    /// with distinct valid names, each existing entry keeping its kind.
    #[verifier::loop_isolation(false)]
    pub fn desired(&self) -> (r: Result<Vec<Desired>, ExplorerError>)
        ensures
            match r {
                Ok(d) => self.spec_desired() == Ok::<_, ExplorerError>(desired_views(d@)),
                Err(e) => self.spec_desired() == Err::<Seq<(u64, Seq<char>, bool)>, _>(e),
            },
            r matches Ok(d) ==> forall|a: int, b: int|
                0 <= a < b < d@.len() ==> (#[trigger] d@[a]).name@ != (#[trigger] d@[b]).name@,
            r matches Ok(d) ==> forall|a: int| 0 <= a < d@.len() ==> valid_name((#[trigger] d@[a]).name@),
    {
        let lines = &self.buffer.lines;
        let mut ids: Vec<u64> = Vec::new();
        let mut names: Vec<String> = Vec::new();
        let mut out: Vec<Desired> = Vec::new();
        let mut i: usize = 0;
        assert(desired_views(out@) =~= Seq::<(u64, Seq<char>, bool)>::empty());
        assert(strings_of(names@) =~= Seq::<Seq<char>>::empty());
        while i < lines.len()
            invariant
                i <= lines@.len(),
                lines@ == self.buffer.lines@,
                self.desired_from(i as int, ids@, strings_of(names@), desired_views(out@))
                    == self.spec_desired(),
                strings_of(names@) == desired_views(out@).map_values(
                    |x: (u64, Seq<char>, bool)| x.1,
                ),
                forall|a: int, b: int|
                    0 <= a < b < out@.len() ==> (#[trigger] out@[a]).name@ != (#[trigger] out@[b]).name@,
                forall|a: int| 0 <= a < out@.len() ==> valid_name((#[trigger] out@[a]).name@),
            decreases lines.len() - i,
        {
            let line = &lines[i];
            let mut k: usize = 0;
            while k < ids.len()
                invariant
                    k <= ids@.len(),
                    forall|j: int| 0 <= j < k ==> ids@[j] != line.id,
                decreases ids.len() - k,
            {
                if ids[k] == line.id {
                    assert(ids@.contains(line.id));
                    return Err(ExplorerError::DuplicateIdentity);
                }
                k += 1;
            }
            let ghost ids0 = ids@;
            ids.push(line.id);
            assert(ids@ =~= ids0.push(line.id));
            if line.text.as_str().unicode_len() == 0 {
                i += 1;
                continue;
            }
            let (name, directory) = match parse_name(line.text.as_str()) {
                Ok(p) => p,
                Err(e) => return Err(e),
            };
            let mut k: usize = 0;
            while k < names.len()
                invariant
                    k <= names@.len(),
                    forall|j: int| 0 <= j < k ==> names@[j]@ != name@,
                decreases names.len() - k,
            {
                if names[k] == name {
                    assert(strings_of(names@)[k as int] == name@);
                    assert(strings_of(names@).contains(name@));
                    return Err(ExplorerError::DuplicateDestination);
                }
                k += 1;
            }
            assert(!strings_of(names@).contains(name@));
            match self.entry_index(line.id) {
                Some(e) => {
                    if directory != (self.entries[e].1.kind == EntryKind::Directory) {
                        return Err(ExplorerError::TypeChange);
                    }
                },
                None => {},
            }
            let ghost names0 = strings_of(names@);
            let ghost out0 = desired_views(out@);
            names.push(name.clone());
            out.push(Desired { id: line.id, name, directory });
            proof {
                assert(strings_of(names@) =~= names0.push(name@));
                assert(desired_views(out@) =~= out0.push((line.id, name@, directory)));
                assert(desired_views(out@).map_values(|x: (u64, Seq<char>, bool)| x.1)
                    =~= out0.map_values(|x: (u64, Seq<char>, bool)| x.1).push(name@));
                assert forall|a: int, b: int|
                    0 <= a < b < out@.len() implies (#[trigger] out@[a]).name@ != (
                    #[trigger] out@[b]).name@ by {
                    if b == out@.len() - 1 {
                        assert(names0[a] == out@[a].name@);
                    }
                }
            }
            i += 1;
        }
        Ok(out)
    }
}

pub open spec fn strings_of(v: Seq<String>) -> Seq<Seq<char>> {
    v.map_values(|s: String| s@)
}

pub open spec fn ids_of(d: Seq<(u64, Seq<char>, bool)>) -> Seq<u64> {
    d.map_values(|x: (u64, Seq<char>, bool)| x.0)
}

impl Explorer {
    pub open spec fn path_of(&self, name: Seq<char>) -> Seq<char> {
        join_path(self.directory@, name)
    }

    /// Renames, by full path, in the order of the listing.
    pub open spec fn renamed_plan(&self, d: Seq<(u64, Seq<char>, bool)>) -> Seq<(Seq<char>, Seq<char>)>
        decreases d.len(),
    {
        if d.len() == 0 {
            Seq::empty()
        } else {
            let prev = self.renamed_plan(d.drop_last());
            let x = d.last();
            match self.entry_of(x.0) {
                Some(e) => if e.name@ != x.1 {
                    prev.push((self.path_of(e.name@), self.path_of(x.1)))
                } else {
                    prev
                },
                None => prev,
            }
        }
    }

    /// New entries, by full path, in the order of the listing.
    pub open spec fn created_plan(&self, d: Seq<(u64, Seq<char>, bool)>) -> Seq<Seq<char>>
        decreases d.len(),
    {
        if d.len() == 0 {
            Seq::empty()
        } else {
            let prev = self.created_plan(d.drop_last());
            let x = d.last();
            if self.entry_of(x.0) is None {
                prev.push(self.path_of(x.1))
            } else {
                prev
            }
        }
    }

    /// Names of the listed entries whose lines are gone.
    pub open spec fn deleted_names(&self, d: Seq<(u64, Seq<char>, bool)>, k: int) -> Seq<Seq<char>>
        decreases k,
    {
        if k <= 0 || k > self.entries@.len() {
            Seq::empty()
        } else {
            let prev = self.deleted_names(d, k - 1);
            let (id, e) = self.entries@[k - 1];
            if ids_of(d).contains(id) {
                prev
            } else {
                prev.push(e.name@)
            }
        }
    }

    /// Deleted entries, by full path, in name order.
    pub open spec fn deleted_plan(&self, d: Seq<(u64, Seq<char>, bool)>) -> Seq<Seq<char>> {
        self.deleted_names(d, self.entries@.len() as int).sort_by(crate::text::lex_order()).map_values(
            |n: Seq<char>| self.path_of(n),
        )
    }

    /// What committing `desired` will do: rename entries whose line now names
    /// another file, create entries for new lines, and trash entries whose
    /// lines were removed.
    pub fn plan_commit(&self, desired: &Vec<Desired>) -> (r: CommitReport)
        ensures
            r.renamed_views() == self.renamed_plan(desired_views(desired@)),
            crate::text::strings_view(r.created@) == self.created_plan(desired_views(desired@)),
            crate::text::strings_view(r.deleted@) == self.deleted_plan(desired_views(desired@)),
    {
        let ghost d = desired_views(desired@);
        let mut renamed: Vec<(String, String)> = Vec::new();
        let mut created: Vec<String> = Vec::new();
        let mut i: usize = 0;
        while i < desired.len()
            invariant
                i <= desired@.len(),
                d == desired_views(desired@),
                renamed@.map_values(|r: (String, String)| (r.0@, r.1@)) == self.renamed_plan(
                    d.take(i as int),
                ),
                crate::text::strings_view(created@) == self.created_plan(d.take(i as int)),
            decreases desired.len() - i,
        {
            assert(d.take(i + 1).drop_last() =~= d.take(i as int));
            let x = &desired[i];
            let ghost rv = renamed@.map_values(|r: (String, String)| (r.0@, r.1@));
            let ghost cv = crate::text::strings_view(created@);
            match self.entry_index(x.id) {
                Some(k) => {
                    let orig = &self.entries[k].1.name;
                    if *orig != x.name {
                        renamed.push((self.path_exec(orig), self.path_exec(&x.name)));
                        assert(renamed@.map_values(|r: (String, String)| (r.0@, r.1@)) =~= rv.push(
                            (self.path_of(orig@), self.path_of(x.name@)),
                        ));
                    }
                },
                None => {
                    created.push(self.path_exec(&x.name));
                    assert(crate::text::strings_view(created@) =~= cv.push(self.path_of(x.name@)));
                },
            }
            i += 1;
        }
        assert(d.take(desired@.len() as int) =~= d);
        let mut names: Vec<String> = Vec::new();
        let mut k: usize = 0;
        while k < self.entries.len()
            invariant
                k <= self.entries@.len(),
                d == desired_views(desired@),
                crate::text::strings_view(names@) == self.deleted_names(d, k as int),
            decreases self.entries.len() - k,
        {
            let id = self.entries[k].0;
            let mut found = false;
            let mut j: usize = 0;
            while j < desired.len()
                invariant
                    j <= desired@.len(),
                    d == desired_views(desired@),
                    found == ids_of(d).take(j as int).contains(id),
                decreases desired.len() - j,
            {
                assert(ids_of(d).take(j + 1) =~= ids_of(d).take(j as int).push(desired@[j as int].id));
                proof {
                    let t = ids_of(d).take(j as int);
                    let x = desired@[j as int].id;
                    let t1 = t.push(x);
                    if t.contains(id) {
                        let w = choose|w: int| 0 <= w < t.len() && t[w] == id;
                        assert(t1[w] == id);
                    }
                    if x == id {
                        assert(t1[t.len() as int] == id);
                    }
                    if t1.contains(id) && x != id {
                        let w = choose|w: int| 0 <= w < t1.len() && t1[w] == id;
                        assert(t[w] == id);
                    }
                }
                if desired[j].id == id {
                    found = true;
                }
                j += 1;
            }
            assert(ids_of(d).take(desired@.len() as int) =~= ids_of(d));
            let ghost nv = crate::text::strings_view(names@);
            if !found {
                names.push(self.entries[k].1.name.clone());
                assert(crate::text::strings_view(names@) =~= nv.push(self.entries@[k as int].1.name@));
            }
            k += 1;
        }
        let sorted = crate::text::sort_strings(names);
        let mut deleted: Vec<String> = Vec::new();
        let mut k: usize = 0;
        let ghost sv = crate::text::strings_view(sorted@);
        while k < sorted.len()
            invariant
                k <= sorted@.len(),
                sv == crate::text::strings_view(sorted@),
                crate::text::strings_view(deleted@) == sv.take(k as int).map_values(
                    |n: Seq<char>| self.path_of(n),
                ),
            decreases sorted.len() - k,
        {
            let ghost prev = crate::text::strings_view(deleted@);
            deleted.push(self.path_exec(&sorted[k]));
            assert(crate::text::strings_view(deleted@) =~= prev.push(self.path_of(sv[k as int])));
            assert(sv.take(k + 1).map_values(|n: Seq<char>| self.path_of(n)) =~= sv.take(
                k as int,
            ).map_values(|n: Seq<char>| self.path_of(n)).push(self.path_of(sv[k as int])));
            k += 1;
        }
        assert(sv.take(sorted@.len() as int) =~= sv);
        CommitReport { renamed, deleted, created }
    }

    /// The full path of an entry of the listed directory.
    pub fn path_exec(&self, name: &String) -> (r: String)
        ensures
            r@ == self.path_of(name@),
    {
        join_exec(self.directory.as_str(), name.as_str())
    }
}

/// Where an entry of a commit currently is.
#[derive(Clone, Copy, Debug, PartialEq, Eq, Structural)]
pub enum Location {
    /// At its source (or, for a new entry, nowhere yet).
    Original,
    /// In the staging directory.
    Staged,
    /// At its destination.
    Destination,
}

/// One entry of a commit: moved from its source (absent for a new entry)
/// through a private staging name to its destination.
#[derive(Clone, Debug)]
pub struct Operation {
    pub source: Option<String>,
    pub staged: String,
    pub destination: String,
    pub directory: bool,
    pub location: Location,
}

/// A filesystem step of a commit, performed by the caller.
#[derive(Clone, Debug, PartialEq, Eq)]
pub enum CommitAction {
    /// Create an empty file, failing if the path exists.
    CreateFile(String),
    /// Create an empty directory, failing if the path exists.
    CreateDir(String),
    /// Check that the directory still matches its listing, ignoring staging.
    VerifySnapshot,
    /// Rename a path that nothing else can occupy (a private staging name).
    Rename { from: String, to: String },
    /// Move without ever replacing an existing destination.
    MoveNoReplace { from: String, to: String },
    /// Remove an empty directory (never recursively).
    RemoveDir(String),
    RemoveFile(String),
}

/// The stage a commit has reached.
#[derive(Clone, Copy, Debug, PartialEq, Eq, Structural)]
pub enum CommitPhase {
    /// Creating new entries in staging, before any user data is touched.
    Prepare(usize),
    Verify,
    /// Moving sources into staging, so every affected name is vacated.
    Stage(usize),
    /// Moving staged entries to their destinations.
    Install(usize),
    Done,
    /// Rolling back: vacating destinations, from the last operation down.
    Vacate(usize),
    /// Rolling back: restoring sources and removing new entries, from the last down.
    Restore(usize),
    RolledBack,
}

/// The progress of a commit: which step comes next and where each entry is.
pub struct CommitRun {
    pub operations: Vec<Operation>,
    pub phase: CommitPhase,
    /// Rollback steps that failed; their entries stay where they are for recovery.
    pub failures: usize,
}

pub open spec fn at(ops: Seq<Operation>, j: int) -> Location {
    ops[j].location
}

/// `ops` with entry `k` recorded at `location`.
pub open spec fn with_location(ops: Seq<Operation>, k: int, location: Location) -> Seq<Operation> {
    ops.update(k, Operation { location, ..ops[k] })
}

/// The stage a commit is really at once the entries that need nothing at
/// their stage are skipped: sources are not created in `Prepare`, new
/// entries are not staged in `Stage`, and rollback skips entries that are
/// not where its step would move them from.
pub open spec fn settled(ops: Seq<Operation>, phase: CommitPhase) -> CommitPhase
    decreases
        (match phase {
            CommitPhase::Prepare(i) => 4 * (ops.len() + 1) - i as int,
            CommitPhase::Stage(i) => 3 * (ops.len() + 1) - 1 - i as int,
            CommitPhase::Vacate(i) => 2 * (ops.len() + 1) + i as int,
            CommitPhase::Restore(i) => (ops.len() + 1) + i as int,
            _ => 0int,
        }),
{
    let n = ops.len();
    match phase {
        CommitPhase::Prepare(i) => if i >= n {
            CommitPhase::Verify
        } else if ops[i as int].source is Some && i < usize::MAX {
            settled(ops, CommitPhase::Prepare((i + 1) as usize))
        } else {
            phase
        },
        CommitPhase::Stage(i) => if i >= n {
            if n == 0 {
                CommitPhase::Done
            } else {
                CommitPhase::Install(0)
            }
        } else if ops[i as int].source is None && i < usize::MAX {
            settled(ops, CommitPhase::Stage((i + 1) as usize))
        } else {
            phase
        },
        CommitPhase::Install(i) => if i >= n {
            CommitPhase::Done
        } else {
            phase
        },
        CommitPhase::Vacate(i) => if i == 0 {
            if n <= usize::MAX {
                settled(ops, CommitPhase::Restore(n as usize))
            } else {
                phase
            }
        } else if i <= n && ops[i - 1].location != Location::Destination {
            settled(ops, CommitPhase::Vacate((i - 1) as usize))
        } else {
            phase
        },
        CommitPhase::Restore(i) => if i == 0 {
            CommitPhase::RolledBack
        } else if i <= n && ops[i - 1].location != Location::Staged {
            settled(ops, CommitPhase::Restore((i - 1) as usize))
        } else {
            phase
        },
        _ => phase,
    }
}

/// The filesystem step for a settled stage: create the new entry in
/// staging; check the snapshot; move the source to its staging name;
/// move the staged entry to its destination without replacing anything;
/// in rollback, move an installed entry back to staging, then move a staged
/// entry back to its source (or remove a new one). Nothing once the commit
/// is done or rolled back.
pub open spec fn step_action(ops: Seq<Operation>, phase: CommitPhase) -> Option<CommitAction> {
    match phase {
        CommitPhase::Prepare(i) => Some(
            if ops[i as int].directory {
                CommitAction::CreateDir(ops[i as int].staged)
            } else {
                CommitAction::CreateFile(ops[i as int].staged)
            },
        ),
        CommitPhase::Verify => Some(CommitAction::VerifySnapshot),
        CommitPhase::Stage(i) => Some(
            CommitAction::Rename {
                from: match ops[i as int].source {
                    Some(s) => s,
                    None => ops[i as int].staged,
                },
                to: ops[i as int].staged,
            },
        ),
        CommitPhase::Install(i) => Some(
            CommitAction::MoveNoReplace { from: ops[i as int].staged, to: ops[i as int].destination },
        ),
        CommitPhase::Vacate(i) => Some(
            CommitAction::MoveNoReplace { from: ops[i - 1].destination, to: ops[i - 1].staged },
        ),
        CommitPhase::Restore(i) => Some(
            match ops[i - 1].source {
                Some(s) => CommitAction::MoveNoReplace { from: ops[i - 1].staged, to: s },
                None => if ops[i - 1].directory {
                    CommitAction::RemoveDir(ops[i - 1].staged)
                } else {
                    CommitAction::RemoveFile(ops[i - 1].staged)
                },
            },
        ),
        _ => None,
    }
}

impl CommitRun {
    /// Where every entry is at each stage. Rollback places are exact when no
    /// rollback step has failed.
    pub open spec fn inv(&self) -> bool {
        let ops = self.operations@;
        let n = ops.len();
        match self.phase {
            CommitPhase::Prepare(i) => i <= n && forall|j: int|
                0 <= j < n ==> #[trigger] at(ops, j) == if j < i && ops[j].source is None {
                    Location::Staged
                } else {
                    Location::Original
                },
            CommitPhase::Verify => forall|j: int|
                0 <= j < n ==> #[trigger] at(ops, j) == if ops[j].source is None {
                    Location::Staged
                } else {
                    Location::Original
                },
            CommitPhase::Stage(i) => i <= n && forall|j: int|
                0 <= j < n ==> #[trigger] at(ops, j) == if j < i || ops[j].source is None {
                    Location::Staged
                } else {
                    Location::Original
                },
            CommitPhase::Install(i) => i <= n && forall|j: int|
                0 <= j < n ==> #[trigger] at(ops, j) == if j < i {
                    Location::Destination
                } else {
                    Location::Staged
                },
            CommitPhase::Done => forall|j: int| 0 <= j < n ==> #[trigger] at(ops, j) == Location::Destination,
            CommitPhase::Vacate(i) => i <= n && (self.failures == 0 ==> forall|j: int|
                i <= j < n ==> #[trigger] at(ops, j) != Location::Destination),
            CommitPhase::Restore(i) => i <= n && (self.failures == 0 ==> (forall|j: int|
                i <= j < n ==> #[trigger] at(ops, j) == Location::Original) && forall|j: int|
                0 <= j < i ==> #[trigger] at(ops, j) != Location::Destination),
            CommitPhase::RolledBack => self.failures == 0 ==> forall|j: int|
                0 <= j < n ==> #[trigger] at(ops, j) == Location::Original,
        }
    }

    /// The current stage has a step to perform (or the commit has ended).
    pub open spec fn ready(&self) -> bool {
        let ops = self.operations@;
        match self.phase {
            CommitPhase::Prepare(i) => i < ops.len() && ops[i as int].source is None,
            CommitPhase::Stage(i) => i < ops.len() && ops[i as int].source is Some,
            CommitPhase::Install(i) => i < ops.len(),
            CommitPhase::Vacate(i) => 0 < i && at(ops, i - 1) == Location::Destination,
            CommitPhase::Restore(i) => 0 < i && at(ops, i - 1) == Location::Staged,
            _ => true,
        }
    }

    /// A commit of `operations`, none of which has been performed.
    pub fn new(operations: Vec<Operation>) -> (r: CommitRun)
        requires
            forall|j: int| 0 <= j < operations@.len() ==> #[trigger] at(operations@, j) == Location::Original,
        ensures
            r.inv(),
            r.phase == CommitPhase::Prepare(0),
            r.failures == 0,
            r.operations@ == operations@,
    {
        CommitRun { operations, phase: CommitPhase::Prepare(0), failures: 0 }
    }

    /// Skip entries that need nothing at the current stage.
    fn settle(&mut self)
        requires
            old(self).inv(),
        ensures
            final(self).inv(),
            final(self).ready(),
            final(self).operations@ == old(self).operations@,
            final(self).failures == old(self).failures,
            final(self).phase == settled(old(self).operations@, old(self).phase),
        decreases 0nat,
    {
        loop
            invariant
                self.inv(),
                self.operations@ == old(self).operations@,
                self.failures == old(self).failures,
                settled(self.operations@, self.phase) == settled(old(self).operations@, old(self).phase),
            decreases
                (match self.phase {
                    CommitPhase::Prepare(i) => 4 * (self.operations@.len() + 1) - i as int,
                    CommitPhase::Verify => 3 * (self.operations@.len() + 1) as int,
                    CommitPhase::Stage(i) => 3 * (self.operations@.len() + 1) - 1 - i as int,
                    CommitPhase::Vacate(i) => 2 * (self.operations@.len() + 1) + i as int,
                    CommitPhase::Restore(i) => (self.operations@.len() + 1) + i as int,
                    _ => 0int,
                }) as nat,
        {
            let n = self.operations.len();
            match self.phase {
                CommitPhase::Prepare(i) => {
                    if i == n {
                        self.phase = CommitPhase::Verify;
                        return;
                    } else if self.operations[i].source.is_some() {
                        self.phase = CommitPhase::Prepare(i + 1);
                    } else {
                        return;
                    }
                },
                CommitPhase::Stage(i) => {
                    if i == n {
                        self.phase = CommitPhase::Install(0);
                    } else if self.operations[i].source.is_none() {
                        self.phase = CommitPhase::Stage(i + 1);
                    } else {
                        return;
                    }
                },
                CommitPhase::Install(i) => {
                    if i == n {
                        self.phase = CommitPhase::Done;
                    }
                    return;
                },
                CommitPhase::Vacate(i) => {
                    if i == 0 {
                        self.phase = CommitPhase::Restore(n);
                    } else if self.operations[i - 1].location != Location::Destination {
                        self.phase = CommitPhase::Vacate(i - 1);
                    } else {
                        return;
                    }
                },
                CommitPhase::Restore(i) => {
                    if i == 0 {
                        self.phase = CommitPhase::RolledBack;
                        return;
                    } else if self.operations[i - 1].location != Location::Staged {
                        self.phase = CommitPhase::Restore(i - 1);
                    } else {
                        return;
                    }
                },
                _ => {
                    return;
                },
            }
        }
    }

    /// The next filesystem step, or `None` once the commit is done or rolled back.
    pub fn next_action(&mut self) -> (r: Option<CommitAction>)
        requires
            old(self).inv(),
        ensures
            final(self).inv(),
            final(self).operations@ == old(self).operations@,
            final(self).failures == old(self).failures,
            final(self).ready(),
            r is None <==> (final(self).phase == CommitPhase::Done || final(self).phase
                == CommitPhase::RolledBack),
            final(self).phase == settled(old(self).operations@, old(self).phase),
            r == step_action(final(self).operations@, final(self).phase),
    {
        self.settle();
        match self.phase {
            CommitPhase::Prepare(i) => {
                let op = &self.operations[i];
                Some(
                    if op.directory {
                        CommitAction::CreateDir(op.staged.clone())
                    } else {
                        CommitAction::CreateFile(op.staged.clone())
                    },
                )
            },
            CommitPhase::Verify => Some(CommitAction::VerifySnapshot),
            CommitPhase::Stage(i) => {
                let op = &self.operations[i];
                let from = match &op.source {
                    Some(s) => s.clone(),
                    None => op.staged.clone(),
                };
                Some(CommitAction::Rename { from, to: op.staged.clone() })
            },
            CommitPhase::Install(i) => {
                let op = &self.operations[i];
                Some(CommitAction::MoveNoReplace { from: op.staged.clone(), to: op.destination.clone() })
            },
            CommitPhase::Vacate(i) => {
                let op = &self.operations[i - 1];
                Some(CommitAction::MoveNoReplace { from: op.destination.clone(), to: op.staged.clone() })
            },
            CommitPhase::Restore(i) => {
                let op = &self.operations[i - 1];
                match &op.source {
                    Some(s) => Some(CommitAction::MoveNoReplace { from: op.staged.clone(), to: s.clone() }),
                    None => Some(
                        if op.directory {
                            CommitAction::RemoveDir(op.staged.clone())
                        } else {
                            CommitAction::RemoveFile(op.staged.clone())
                        },
                    ),
                }
            },
            _ => None,
        }
    }

    fn set_location(&mut self, k: usize, location: Location)
        requires
            k < old(self).operations@.len(),
        ensures
            final(self).operations@ == old(self).operations@.update(
                k as int,
                Operation { location, ..old(self).operations@[k as int] },
            ),
            final(self).phase == old(self).phase,
            final(self).failures == old(self).failures,
    {
        let mut ops: Vec<Operation> = Vec::new();
        std::mem::swap(&mut ops, &mut self.operations);
        let mut op = ops[k].clone_operation();
        op.location = location;
        ops.set(k, op);
        self.operations = ops;
    }

    /// Record the outcome of the step that `next_action` returned. A failed
    /// forward step starts the rollback; a failed rollback step is counted and
    /// its entry left in place.
    pub fn complete(&mut self, ok: bool)
        requires
            old(self).inv(),
            old(self).phase != CommitPhase::Done,
            old(self).phase != CommitPhase::RolledBack,
            old(self).ready(),
            old(self).failures < usize::MAX,
        ensures
            final(self).inv(),
            final(self).operations@.len() == old(self).operations@.len(),
            ok && old(self).phase == CommitPhase::Verify ==> final(self).phase == CommitPhase::Stage(0),
            !ok && (old(self).phase is Prepare || old(self).phase is Verify || old(self).phase is Stage
                || old(self).phase is Install) ==> final(self).phase == CommitPhase::Vacate(
                old(self).operations@.len() as usize,
            ) && final(self).failures == old(self).failures,
            ok ==> final(self).failures == old(self).failures,
            ({
                let ops = old(self).operations@;
                let n = ops.len() as usize;
                match old(self).phase {
                    CommitPhase::Prepare(i) => if ok {
                        final(self).phase == CommitPhase::Prepare((i + 1) as usize)
                            && final(self).operations@ == with_location(ops, i as int, Location::Staged)
                    } else {
                        final(self).phase == CommitPhase::Vacate(n) && final(self).operations@ == ops
                    },
                    CommitPhase::Verify => final(self).operations@ == ops && final(self).phase == if ok {
                        CommitPhase::Stage(0)
                    } else {
                        CommitPhase::Vacate(n)
                    },
                    CommitPhase::Stage(i) => if ok {
                        final(self).phase == CommitPhase::Stage((i + 1) as usize)
                            && final(self).operations@ == with_location(ops, i as int, Location::Staged)
                    } else {
                        final(self).phase == CommitPhase::Vacate(n) && final(self).operations@ == ops
                    },
                    CommitPhase::Install(i) => if ok {
                        final(self).phase == CommitPhase::Install((i + 1) as usize)
                            && final(self).operations@ == with_location(ops, i as int, Location::Destination)
                    } else {
                        final(self).phase == CommitPhase::Vacate(n) && final(self).operations@ == ops
                    },
                    CommitPhase::Vacate(i) => final(self).phase == CommitPhase::Vacate((i - 1) as usize) && if ok {
                        final(self).operations@ == with_location(ops, i - 1, Location::Staged)
                            && final(self).failures == old(self).failures
                    } else {
                        final(self).operations@ == ops && final(self).failures == old(self).failures + 1
                    },
                    CommitPhase::Restore(i) => final(self).phase == CommitPhase::Restore((i - 1) as usize) && if ok {
                        final(self).operations@ == with_location(ops, i - 1, Location::Original)
                            && final(self).failures == old(self).failures
                    } else {
                        final(self).operations@ == ops && final(self).failures == old(self).failures + 1
                    },
                    _ => false,
                }
            }),
    {
        let n = self.operations.len();
        match self.phase {
            CommitPhase::Prepare(i) => {
                if ok {
                    let ghost before = self.operations@;
                    self.set_location(i, Location::Staged);
                    self.phase = CommitPhase::Prepare(i + 1);
                    assert forall|j: int| 0 <= j < n implies #[trigger] at(self.operations@, j) == if j < i + 1
                        && self.operations@[j].source is None {
                        Location::Staged
                    } else {
                        Location::Original
                    } by {
                        if j != i {
                            assert(at(before, j) == at(self.operations@, j));
                        }
                    }
                } else {
                    self.phase = CommitPhase::Vacate(n);
                }
            },
            CommitPhase::Verify => {
                if ok {
                    self.phase = CommitPhase::Stage(0);
                } else {
                    self.phase = CommitPhase::Vacate(n);
                }
            },
            CommitPhase::Stage(i) => {
                if ok {
                    let ghost before = self.operations@;
                    self.set_location(i, Location::Staged);
                    self.phase = CommitPhase::Stage(i + 1);
                    assert forall|j: int| 0 <= j < n implies #[trigger] at(self.operations@, j) == if j < i + 1
                        || self.operations@[j].source is None {
                        Location::Staged
                    } else {
                        Location::Original
                    } by {
                        if j != i {
                            assert(at(before, j) == at(self.operations@, j));
                        }
                    }
                } else {
                    self.phase = CommitPhase::Vacate(n);
                }
            },
            CommitPhase::Install(i) => {
                if ok {
                    let ghost before = self.operations@;
                    self.set_location(i, Location::Destination);
                    self.phase = CommitPhase::Install(i + 1);
                    assert forall|j: int| 0 <= j < n implies #[trigger] at(self.operations@, j) == if j < i + 1 {
                        Location::Destination
                    } else {
                        Location::Staged
                    } by {
                        if j != i {
                            assert(at(before, j) == at(self.operations@, j));
                        }
                    }
                } else {
                    self.phase = CommitPhase::Vacate(n);
                }
            },
            CommitPhase::Vacate(i) => {
                let ghost before = self.operations@;
                if ok {
                    self.set_location(i - 1, Location::Staged);
                    if self.failures == 0 {
                        assert forall|j: int| i - 1 <= j < n implies #[trigger] at(self.operations@, j)
                            != Location::Destination by {
                            if j != i - 1 {
                                assert(at(before, j) == at(self.operations@, j));
                            }
                        }
                    }
                } else {
                    self.failures = self.failures + 1;
                }
                self.phase = CommitPhase::Vacate(i - 1);
            },
            CommitPhase::Restore(i) => {
                let ghost before = self.operations@;
                if ok {
                    self.set_location(i - 1, Location::Original);
                    if self.failures == 0 {
                        assert forall|j: int| i - 1 <= j < n implies #[trigger] at(self.operations@, j)
                            == Location::Original by {
                            if j != i - 1 {
                                assert(at(before, j) == at(self.operations@, j));
                            }
                        }
                        assert forall|j: int| 0 <= j < i - 1 implies #[trigger] at(self.operations@, j)
                            != Location::Destination by {
                            assert(at(before, j) == at(self.operations@, j));
                        }
                    }
                } else {
                    self.failures = self.failures + 1;
                }
                self.phase = CommitPhase::Restore(i - 1);
            },
            _ => {},
        }
    }
}

impl Operation {
    pub fn clone_operation(&self) -> (r: Operation)
        ensures
            r == *self,
    {
        Operation {
            source: match &self.source {
                Some(s) => Some(s.clone()),
                None => None,
            },
            staged: self.staged.clone(),
            destination: self.destination.clone(),
            directory: self.directory,
            location: self.location,
        }
    }
}

/// A commit that performs every step successfully ends with every entry at
/// its destination; a rollback that performs every step successfully ends
/// with every entry back at its source (and new entries removed).
pub proof fn law_commit_outcomes(run: CommitRun)
    requires
        run.inv(),
    ensures
        run.phase == CommitPhase::Done ==> forall|j: int|
            0 <= j < run.operations@.len() ==> #[trigger] at(run.operations@, j) == Location::Destination,
        run.phase == CommitPhase::RolledBack && run.failures == 0 ==> forall|j: int|
            0 <= j < run.operations@.len() ==> #[trigger] at(run.operations@, j) == Location::Original,
{
}

/// What entering a listed entry does, by the kind the filesystem now reports.
#[derive(Debug, Clone, Copy, PartialEq, Eq, Structural)]
pub enum EnterAction {
    /// List the directory.
    Navigate,
    /// Open the file in the editor.
    Open,
    /// Neither a regular file nor a directory.
    Refuse,
}

/// Directories (and symlinks to directories) are listed; files and other
/// symlinks are opened; anything else is refused.
pub fn enter_action(kind: EntryKind, target_is_dir: bool) -> (r: EnterAction)
    ensures
        r == if kind == EntryKind::Directory || (kind == EntryKind::Symlink && target_is_dir) {
            EnterAction::Navigate
        } else if kind == EntryKind::File || kind == EntryKind::Symlink {
            EnterAction::Open
        } else {
            EnterAction::Refuse
        },
{
    if kind == EntryKind::Directory || (kind == EntryKind::Symlink && target_is_dir) {
        EnterAction::Navigate
    } else if kind == EntryKind::File || kind == EntryKind::Symlink {
        EnterAction::Open
    } else {
        EnterAction::Refuse
    }
}

/// `Path::parent` of a `/`-separated path without `.` segments or a trailing `/`.
pub open spec fn parent_path(p: Seq<char>) -> Option<Seq<char>> {
    if p.len() == 0 || p == seq!['/'] {
        None
    } else if exists|i: int| 0 <= i < p.len() && p[i] == '/' {
        let i = choose|i: int|
            0 <= i < p.len() && p[i] == '/' && forall|k: int| i < k < p.len() ==> #[trigger] p[k] != '/';
        if i == 0 {
            Some(seq!['/'])
        } else {
            Some(p.subrange(0, i))
        }
    } else {
        Some(Seq::empty())
    }
}

impl Explorer {
    /// The entry on the caret's line and its full path, when navigation is allowed.
    pub open spec fn spec_enter(&self) -> Result<Option<(Seq<char>, EntryKind)>, ExplorerError> {
        if self.spec_dirty() {
            Err(ExplorerError::PendingChanges)
        } else if self.buffer.row >= self.buffer.lines@.len() {
            Ok(None)
        } else {
            match self.entry_of(self.buffer.lines@[self.buffer.row as int].id) {
                None => Ok(None),
                Some(e) => Ok(Some((self.path_of(e.name@), e.kind))),
            }
        }
    }

    /// Entering the caret's line: its path and the kind it was listed with. The
    /// caller compares these with the filesystem and acts by `enter_action`.
    pub fn enter(&self) -> (r: Result<Option<(String, EntryKind)>, ExplorerError>)
        ensures
            match r {
                Ok(Some((p, k))) => self.spec_enter() == Ok::<_, ExplorerError>(
                    Some((p@, k)),
                ),
                Ok(None) => self.spec_enter() == Ok::<
                    Option<(Seq<char>, EntryKind)>,
                    ExplorerError,
                >(None),
                Err(e) => self.spec_enter() == Err::<Option<(Seq<char>, EntryKind)>, _>(e),
            },
    {
        self.require_clean()?;
        if self.buffer.row >= self.buffer.lines.len() {
            return Ok(None);
        }
        let id = self.buffer.lines[self.buffer.row].id;
        match self.entry_index(id) {
            None => Ok(None),
            Some(k) => Ok(Some((self.path_exec(&self.entries[k].1.name), self.entries[k].1.kind))),
        }
    }

    /// The directory above the listed one, when navigation is allowed.
    pub fn parent(&self) -> (r: Result<Option<String>, ExplorerError>)
        ensures
            match r {
                Ok(p) => !self.spec_dirty() && crate::image_assets::opt_string_view(p) == parent_path(
                    self.directory@,
                ),
                Err(e) => self.spec_dirty() && e == ExplorerError::PendingChanges,
            },
    {
        self.require_clean()?;
        let cs = chars_vec(self.directory.as_str());
        let n = cs.len();
        let slash: [char; 1] = ['/'];
        assert(slash@ =~= seq!['/']);
        if n == 0 || chars_equal(cs.as_slice(), &slash) {
            return Ok(None);
        }
        let mut i = n;
        while i > 0 && cs[i - 1] != '/'
            invariant
                i <= n,
                n == cs@.len(),
                forall|k: int| i <= k < n ==> #[trigger] cs@[k] != '/',
            decreases i,
        {
            i -= 1;
        }
        if i == 0 {
            return Ok(Some(String::new()));
        }
        let last = i - 1;
        proof {
            let j = choose|j: int|
                0 <= j < cs@.len() && cs@[j] == '/' && forall|k: int|
                    j < k < cs@.len() ==> #[trigger] cs@[k] != '/';
            if j < last {
                assert(cs@[last as int] != '/');
            }
            if j > last {
                assert(cs@[j] != '/');
            }
        }
        if last == 0 {
            return Ok(Some(string_from_chars(&slash)));
        }
        Ok(Some(self.directory.as_str().substring_char(0, last).to_owned()))
    }

    /// List `entries` again for the same directory.
    pub fn refresh(&mut self, entries: Vec<Entry>)
        requires
            entries@.len() < u64::MAX,
        ensures
            final(self).directory == old(self).directory,
            final(self).workspace == old(self).workspace,
            final(self).spec_shows(entries@),
            listable(entries@) ==> !final(self).spec_dirty(),
    {
        let directory = self.directory.clone();
        let workspace = self.workspace.clone();
        *self = Explorer::listing(directory, workspace, entries);
    }

    /// Reloading never silently discards a pending filesystem edit.
    pub fn reload(&mut self, entries: Vec<Entry>) -> (r: Result<(), ExplorerError>)
        requires
            entries@.len() < u64::MAX,
        ensures
            r is Ok <==> !old(self).spec_dirty(),
            r is Err ==> *final(self) == *old(self),
            r is Ok ==> final(self).directory == old(self).directory && final(self).workspace
                == old(self).workspace && final(self).spec_shows(entries@),
            r is Ok && listable(entries@) ==> !final(self).spec_dirty(),
    {
        self.require_clean()?;
        self.refresh(entries);
        Ok(())
    }

    /// List `directory`. Moving outside the workspace (or following a link out
    /// of it) makes the new directory the workspace, so the trash never lies
    /// inside an entry that a later commit may move.
    pub fn navigate(&mut self, directory: String, entries: Vec<Entry>)
        requires
            entries@.len() < u64::MAX,
        ensures
            final(self).directory == directory,
            final(self).workspace@ == if crate::document::path_starts_with(
                directory@,
                old(self).workspace@,
            ) {
                old(self).workspace@
            } else {
                directory@
            },
            final(self).spec_shows(entries@),
            listable(entries@) ==> !final(self).spec_dirty(),
    {
        let dc = chars_vec(directory.as_str());
        let wc = chars_vec(self.workspace.as_str());
        let inside = crate::document::starts_with_path(&dc, &wc);
        let workspace = if inside {
            self.workspace.clone()
        } else {
            directory.clone()
        };
        *self = Explorer::listing(directory, workspace, entries);
    }
}

pub open spec fn entry_word() -> Seq<char> {
    seq!['e', 'n', 't', 'r', 'y', '-']
}

/// The private staging name of the `k`-th operation.
pub open spec fn staged_path(staging: Seq<char>, k: nat) -> Seq<char> {
    join_path(staging, entry_word() + crate::text::decimal(k))
}

pub open spec fn operation_view(op: Operation) -> (Option<Seq<char>>, Seq<char>, Seq<char>, bool, Location) {
    (
        crate::image_assets::opt_string_view(op.source),
        op.staged@,
        op.destination@,
        op.directory,
        op.location,
    )
}

fn file_name_exec(p: &String) -> (r: String)
    ensures
        r@ == crate::document::file_name(p@),
{
    let cs = chars_vec(p.as_str());
    let n = cs.len();
    let mut i = n;
    while i > 0 && cs[i - 1] != '/'
        invariant
            i <= n,
            n == cs@.len(),
            forall|k: int| i <= k < n ==> #[trigger] cs@[k] != '/',
        decreases i,
    {
        i -= 1;
    }
    proof {
        if i > 0 {
            let j = choose|j: int|
                0 <= j < cs@.len() && cs@[j] == '/' && forall|k: int|
                    j < k < cs@.len() ==> #[trigger] cs@[k] != '/';
            if j < i - 1 {
                assert(cs@[i - 1] != '/');
            }
            if j > i - 1 {
                assert(cs@[j] != '/');
            }
        } else {
            assert(cs@.subrange(0, n as int) =~= cs@);
        }
    }
    p.as_str().substring_char(i, n).to_owned()
}

fn staged_exec(staging: &String, k: usize) -> (r: String)
    ensures
        r@ == staged_path(staging@, k as nat),
{
    let mut name: Vec<char> = Vec::new();
    name.push('e');
    name.push('n');
    name.push('t');
    name.push('r');
    name.push('y');
    name.push('-');
    let digits = crate::text::decimal_exec(k as u64);
    let ghost head = name@;
    let mut i: usize = 0;
    while i < digits.len()
        invariant
            i <= digits@.len(),
            name@ == head + digits@.take(i as int),
        decreases digits.len() - i,
    {
        name.push(digits[i]);
        assert(digits@.take(i + 1) =~= digits@.take(i as int).push(digits@[i as int]));
        i += 1;
    }
    assert(digits@.take(digits@.len() as int) =~= digits@);
    assert(name@ =~= entry_word() + crate::text::decimal(k as nat));
    let name = string_from_chars(name.as_slice());
    let sc = chars_vec(staging.as_str());
    let mut r = staging.clone();
    if sc.len() > 0 && sc[sc.len() - 1] != '/' {
        crate::text::push_char(&mut r, '/');
    }
    r.append(name.as_str());
    proof {
        reveal_strlit("entry-");
    }
    r
}

impl Explorer {
    /// The moves a commit makes for the listing's lines, in order: an entry
    /// whose name changed moves from its old path; a new entry comes from nowhere.
    pub open spec fn moves_plan(&self, d: Seq<(u64, Seq<char>, bool)>) -> Seq<
        (Option<Seq<char>>, Seq<char>, bool),
    >
        decreases d.len(),
    {
        if d.len() == 0 {
            Seq::empty()
        } else {
            let prev = self.moves_plan(d.drop_last());
            let x = d.last();
            match self.entry_of(x.0) {
                Some(e) => if e.name@ == x.1 {
                    prev
                } else {
                    prev.push((Some(self.path_of(e.name@)), self.path_of(x.1), x.2))
                },
                None => prev.push((None, self.path_of(x.1), x.2)),
            }
        }
    }

    /// Every source leaves its name (through a private staging name) before
    /// any destination is installed, so swaps, rename cycles and replacing a
    /// deleted name are safe. Deleted entries go to the trash transaction.
    pub fn plan_operations(
        &self,
        desired: &Vec<Desired>,
        deleted: &Vec<String>,
        staging: &String,
        trash: &String,
    ) -> (r: Vec<Operation>)
        requires
            desired@.len() + deleted@.len() < usize::MAX,
        ensures
            r@.len() == self.moves_plan(desired_views(desired@)).len() + deleted@.len(),
            forall|k: int|
                0 <= k < r@.len() ==> #[trigger] operation_view(r@[k]) == {
                    let moves = self.moves_plan(desired_views(desired@));
                    let staged = staged_path(staging@, k as nat);
                    if k < moves.len() {
                        (moves[k].0, staged, moves[k].1, moves[k].2, Location::Original)
                    } else {
                        let p = deleted@[k - moves.len()]@;
                        (
                            Some(p),
                            staged,
                            join_path(trash@, crate::document::file_name(p)),
                            false,
                            Location::Original,
                        )
                    }
                },
    {
        let ghost d = desired_views(desired@);
        let mut ops: Vec<Operation> = Vec::new();
        let mut i: usize = 0;
        while i < desired.len()
            invariant
                i <= desired@.len(),
                d == desired_views(desired@),
                desired@.len() + deleted@.len() < usize::MAX,
                ops@.len() == self.moves_plan(d.take(i as int)).len(),
                ops@.len() <= i,
                forall|k: int|
                    0 <= k < ops@.len() ==> #[trigger] operation_view(ops@[k]) == {
                        let m = self.moves_plan(d.take(i as int))[k];
                        (m.0, staged_path(staging@, k as nat), m.1, m.2, Location::Original)
                    },
            decreases desired.len() - i,
        {
            assert(d.take(i + 1).drop_last() =~= d.take(i as int));
            let ghost prev = self.moves_plan(d.take(i as int));
            let x = &desired[i];
            let source: Option<Option<String>> = match self.entry_index(x.id) {
                Some(k) => if self.entries[k].1.name == x.name {
                    None
                } else {
                    Some(Some(self.path_exec(&self.entries[k].1.name)))
                },
                None => Some(None),
            };
            if let Some(source) = source {
                let k = ops.len();
                let op = Operation {
                    source,
                    staged: staged_exec(staging, k),
                    destination: self.path_exec(&x.name),
                    directory: x.directory,
                    location: Location::Original,
                };
                ops.push(op);
            }
            i += 1;
        }
        assert(d.take(desired@.len() as int) =~= d);
        let ghost moves = self.moves_plan(d);
        let mut j: usize = 0;
        while j < deleted.len()
            invariant
                j <= deleted@.len(),
                ops@.len() == moves.len() + j,
                moves.len() <= desired@.len(),
                desired@.len() + deleted@.len() < usize::MAX,
                forall|k: int|
                    0 <= k < ops@.len() ==> #[trigger] operation_view(ops@[k]) == {
                        let staged = staged_path(staging@, k as nat);
                        if k < moves.len() {
                            (moves[k].0, staged, moves[k].1, moves[k].2, Location::Original)
                        } else {
                            let p = deleted@[k - moves.len()]@;
                            (
                                Some(p),
                                staged,
                                join_path(trash@, crate::document::file_name(p)),
                                false,
                                Location::Original,
                            )
                        }
                    },
            decreases deleted.len() - j,
        {
            let k = ops.len();
            let name = file_name_exec(&deleted[j]);
            let destination = join_exec(trash.as_str(), name.as_str());
            ops.push(
                Operation {
                    source: Some(deleted[j].clone()),
                    staged: staged_exec(staging, k),
                    destination,
                    directory: false,
                    location: Location::Original,
                },
            );
            j += 1;
        }
        ops
    }
}

/// What an entry's metadata says, to notice external changes: its kind,
/// length, modification time (nanoseconds from the epoch), and device,
/// inode, status-change time and mode.
#[derive(Clone, Copy, Debug, PartialEq, Eq, Structural)]
pub struct Fingerprint {
    pub kind: EntryKind,
    pub len: u64,
    pub modified: Option<i128>,
    pub device: u64,
    pub inode: u64,
    pub changed_secs: i64,
    pub changed_nanos: i64,
    pub mode: u32,
}

/// The same entry put back by a rollback: renaming it back changes only its
/// status-change time, so everything else must match.
pub open spec fn spec_same_restored(before: Fingerprint, after: Fingerprint) -> bool {
    &&& before.kind == after.kind
    &&& before.len == after.len
    &&& before.modified == after.modified
    &&& before.device == after.device
    &&& before.inode == after.inode
    &&& before.mode == after.mode
}

pub fn same_restored(before: &Fingerprint, after: &Fingerprint) -> (r: bool)
    ensures
        r == spec_same_restored(*before, *after),
{
    before.kind == after.kind && before.len == after.len && before.modified == after.modified
        && before.device == after.device && before.inode == after.inode && before.mode == after.mode
}

pub open spec fn listing_views(v: Seq<(String, Fingerprint)>) -> Seq<(Seq<char>, Fingerprint)> {
    v.map_values(|e: (String, Fingerprint)| (e.0@, e.1))
}

/// The entry is back in `current` under its name, the same restored entry.
pub open spec fn is_restored(entry: (Seq<char>, Fingerprint), current: Seq<(Seq<char>, Fingerprint)>) -> bool {
    exists|j: int| 0 <= j < current.len() && #[trigger] current[j].0 == entry.0 && spec_same_restored(entry.1, current[j].1)
}

/// After a rolled-back commit, the listing's metadata is refreshed only when
/// every original name is back with a stable identity and nothing else
/// appeared; content changed by another process keeps causing a conflict.
pub open spec fn spec_adopt_rolled_back(
    snapshot: Seq<(Seq<char>, Fingerprint)>,
    current: Seq<(Seq<char>, Fingerprint)>,
) -> bool {
    &&& current.len() == snapshot.len()
    &&& forall|i: int| 0 <= i < snapshot.len() ==> is_restored(#[trigger] snapshot[i], current)
}

/// Whether `before` is back in `current` under `name`.
fn restored_in(current: &Vec<(String, Fingerprint)>, name: &String, before: &Fingerprint) -> (r: bool)
    ensures
        r == is_restored((name@, *before), listing_views(current@)),
{
    let ghost cv = listing_views(current@);
    let n = chars_vec(name.as_str());
    let mut j: usize = 0;
    while j < current.len()
        invariant
            j <= current@.len(),
            cv == listing_views(current@),
            n@ == name@,
            forall|k: int| 0 <= k < j ==> !(#[trigger] cv[k].0 == name@ && spec_same_restored(*before, cv[k].1)),
        decreases current.len() - j,
    {
        let c = chars_vec(current[j].0.as_str());
        assert(cv[j as int] == (current@[j as int].0@, current@[j as int].1));
        if chars_equal(c.as_slice(), n.as_slice()) && same_restored(before, &current[j].1) {
            assert(cv[j as int].0 == name@);
            return true;
        }
        j += 1;
    }
    false
}

/// Whether a rolled-back commit may adopt the directory's current metadata.
pub fn adopt_rolled_back(snapshot: &Vec<(String, Fingerprint)>, current: &Vec<(String, Fingerprint)>) -> (r: bool)
    ensures
        r == spec_adopt_rolled_back(listing_views(snapshot@), listing_views(current@)),
{
    let ghost sv = listing_views(snapshot@);
    let ghost cv = listing_views(current@);
    if current.len() != snapshot.len() {
        return false;
    }
    let mut i: usize = 0;
    while i < snapshot.len()
        invariant
            i <= snapshot@.len(),
            sv == listing_views(snapshot@),
            cv == listing_views(current@),
            current@.len() == snapshot@.len(),
            forall|k: int| 0 <= k < i ==> is_restored(#[trigger] sv[k], cv),
        decreases snapshot.len() - i,
    {
        assert(sv[i as int] == (snapshot@[i as int].0@, snapshot@[i as int].1));
        if !restored_in(current, &snapshot[i].0, &snapshot[i].1) {
            return false;
        }
        i += 1;
    }
    true
}

/// A listing line whose identity belongs to no listed entry (such as a
/// line yanked and pasted in place of the one it copies) is a pending
/// filesystem edit, even when the text reads the same.
pub proof fn law_new_line_identity_is_an_edit(x: Explorer, i: int)
    requires
        0 <= i < x.buffer.lines@.len(),
        x.buffer.lines@[i].text@.len() > 0,
        x.entry_of(x.buffer.lines@[i].id) is None,
    ensures
        x.spec_dirty(),
{
    assert(!x.line_unchanged(x.buffer.lines@[i]));
}

} // verus!
