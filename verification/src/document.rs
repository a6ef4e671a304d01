//! A text document: its lines, its file, and the on-disk form it is saved in
//! (line endings and byte-order mark), with the checks that protect external
//! changes from being overwritten.
use vstd::prelude::*;
use vstd::string::StringExecFns;

use crate::buffer::{join_lines, split_lines, Buffer};
use crate::explorer::CommitReport;
use crate::text::{chars_vec, string_from_chars};

verus! {

pub struct Document {
    pub buffer: Buffer,
    /// Canonical path of the file, for a named document.
    pub path: Option<String>,
    /// Lines end in `\r\n` on disk (otherwise `\n`).
    pub crlf: bool,
    /// The file starts with a byte-order mark.
    pub bom: bool,
    /// The exact on-disk text last read or written, for conflict checks.
    pub saved: Option<String>,
}

/// Whether the first `\n` of the text is preceded by `\r`; `None` without a `\n`.
pub open spec fn first_newline_is_crlf(text: Seq<char>) -> Option<bool> {
    if exists|i: int| 0 <= i < text.len() && text[i] == '\n' {
        let i = choose|i: int|
            0 <= i < text.len() && text[i] == '\n' && forall|k: int| 0 <= k < i ==> #[trigger] text[k]
                != '\n';
        Some(i > 0 && text[i - 1] == '\r')
    } else {
        None
    }
}

pub open spec fn starts_with_bom(text: Seq<char>) -> bool {
    text.len() > 0 && text[0] == '\u{feff}'
}

pub open spec fn without_bom(text: Seq<char>) -> Seq<char> {
    if starts_with_bom(text) {
        text.drop_first()
    } else {
        text
    }
}

/// Every `\n` written as `\r\n`.
pub open spec fn with_crlf(text: Seq<char>) -> Seq<char>
    decreases text.len(),
{
    if text.len() == 0 {
        Seq::empty()
    } else if text.last() == '\n' {
        with_crlf(text.drop_last()) + seq!['\r', '\n']
    } else {
        with_crlf(text.drop_last()).push(text.last())
    }
}

/// The file contents for the buffer text, in the document's line ending and BOM.
pub open spec fn encode_text(text: Seq<char>, crlf: bool, bom: bool) -> Seq<char> {
    let body = if crlf {
        with_crlf(text)
    } else {
        text
    };
    if bom {
        seq!['\u{feff}'] + body
    } else {
        body
    }
}

/// The last segment of a `/`-separated path.
pub open spec fn file_name(path: Seq<char>) -> Seq<char> {
    if exists|i: int| 0 <= i < path.len() && path[i] == '/' {
        let i = choose|i: int|
            0 <= i < path.len() && path[i] == '/' && forall|k: int|
                i < k < path.len() ==> #[trigger] path[k] != '/';
        path.subrange(i + 1, path.len() as int)
    } else {
        path
    }
}

pub proof fn lemma_file_name_suffix(path: Seq<char>)
    ensures
        file_name(path).len() <= path.len(),
{
    if exists|i: int| 0 <= i < path.len() && path[i] == '/' {
        let j = choose|i: int| 0 <= i < path.len() && path[i] == '/';
        lemma_last_slash(path, j);
    }
}

proof fn lemma_last_slash(path: Seq<char>, j: int)
    requires
        0 <= j < path.len(),
        path[j] == '/',
    ensures
        exists|i: int|
            0 <= i < path.len() && path[i] == '/' && forall|k: int| i < k < path.len() ==> #[trigger] path[k] != '/',
    decreases path.len() - j,
{
    if exists|k: int| j < k < path.len() && path[k] == '/' {
        let k = choose|k: int| j < k < path.len() && path[k] == '/';
        lemma_last_slash(path, k);
    } else {
        assert(forall|k: int| j < k < path.len() ==> #[trigger] path[k] != '/');
    }
}

/// What `Path::extension` gives for a file name: the text after its last `.`,
/// unless that dot starts the name; `..` has none.
pub open spec fn extension(name: Seq<char>) -> Option<Seq<char>> {
    if name == seq!['.', '.'] {
        None
    } else if exists|i: int| 0 < i < name.len() && name[i] == '.' {
        let i = choose|i: int|
            0 < i < name.len() && name[i] == '.' && forall|k: int|
                i < k < name.len() ==> #[trigger] name[k] != '.';
        Some(name.subrange(i + 1, name.len() as int))
    } else {
        None
    }
}

pub open spec fn ascii_lower(c: char) -> char {
    if 'A' <= c && c <= 'Z' {
        ((c as u32) + 32) as char
    } else {
        c
    }
}

/// `md` in any ASCII case.
pub open spec fn is_md(e: Seq<char>) -> bool {
    e.len() == 2 && ascii_lower(e[0]) == 'm' && ascii_lower(e[1]) == 'd'
}

/// `path` is `prefix` or lies below it, comparing whole `/`-separated components.
pub open spec fn path_starts_with(path: Seq<char>, prefix: Seq<char>) -> bool {
    ||| path == prefix
    ||| (prefix.len() > 0 && prefix.last() == '/' && prefix.is_prefix_of(path))
    ||| prefix.push('/').is_prefix_of(path)
}

/// `path` moved from below `old` to below `new`.
pub open spec fn rebase(path: Seq<char>, old: Seq<char>, new: Seq<char>) -> Seq<char> {
    if path == old {
        new
    } else {
        let rest = if old.len() > 0 && old.last() == '/' {
            path.subrange(old.len() as int, path.len() as int)
        } else {
            path.subrange(old.len() as int + 1, path.len() as int)
        };
        crate::image_assets::join_path(new, rest)
    }
}

/// The first rename whose source contains `path`.
pub open spec fn first_rename(renamed: Seq<(Seq<char>, Seq<char>)>, path: Seq<char>, i: int) -> Option<
    (Seq<char>, Seq<char>),
>
    decreases renamed.len() - i,
{
    if i < 0 || i >= renamed.len() {
        None
    } else if path_starts_with(path, renamed[i].0) {
        Some(renamed[i])
    } else {
        first_rename(renamed, path, i + 1)
    }
}

/// What a file on disk held when a save was attempted.
pub enum DiskText {
    Missing,
    Text(String),
    /// Reading failed for another reason than absence.
    Unreadable,
}

/// Why a save is refused.
#[derive(Debug, Clone, Copy, PartialEq, Eq)]
pub enum SaveError {
    /// Untitled document: use `:w filename.md`.
    Untitled,
    /// File already exists; use `:w!` to replace it.
    AlreadyExists,
    /// File changed on disk; use `:w!` to overwrite or `:e!` to reload.
    ChangedOnDisk,
    /// File was removed on disk; use `:w!` to recreate it.
    RemovedOnDisk,
    /// The file could not be read.
    Unreadable,
    /// File is already open in another buffer.
    OpenElsewhere,
}

pub open spec fn opt_view(o: Option<String>) -> Option<Seq<char>> {
    match o {
        Some(s) => Some(s@),
        None => None,
    }
}

pub fn ascii_lower_exec(c: char) -> (r: char)
    ensures
        r == ascii_lower(c),
{
    if 'A' <= c && c <= 'Z' {
        let b = (c as u32) as u8;
        assert(b == c as u32);
        (b + 32) as char
    } else {
        c
    }
}

/// The extension of the file name of `p`, without its dot.
pub fn path_extension(p: &str) -> (r: Option<Vec<char>>)
    ensures
        match r {
            Some(e) => extension(file_name(p@)) == Some(e@),
            None => extension(file_name(p@)) is None,
        },
{
    let cs = chars_vec(p);
    let n = cs.len();
    // Start of the file name: after the last '/'.
    let mut start = n;
    while start > 0 && cs[start - 1] != '/'
        invariant
            start <= n,
            n == cs@.len(),
            forall|k: int| start <= k < n ==> #[trigger] cs@[k] != '/',
        decreases start,
    {
        start -= 1;
    }
    let ghost name = file_name(cs@);
    proof {
        if start > 0 {
            let j = choose|j: int|
                0 <= j < cs@.len() && cs@[j] == '/' && forall|k: int|
                    j < k < cs@.len() ==> #[trigger] cs@[k] != '/';
            if j < start - 1 {
                assert(cs@[start - 1] != '/');
            }
            assert(name =~= cs@.subrange(start as int, n as int));
        } else {
            assert(name =~= cs@.subrange(start as int, n as int));
        }
    }
    // The last '.' of the name.
    let mut dot = n;
    while dot > start && cs[dot - 1] != '.'
        invariant
            start <= dot <= n,
            n == cs@.len(),
            forall|k: int| dot <= k < n ==> #[trigger] cs@[k] != '.',
        decreases dot,
    {
        dot -= 1;
    }
    // `dot - 1` is the last '.', when one exists.
    if n - start == 2 && cs[start] == '.' && cs[start + 1] == '.' {
        assert(name =~= seq!['.', '.']);
        return None;
    }
    if dot - start <= 1 {
        proof {
            assert forall|i: int| 0 < i < name.len() implies name[i] != '.' by {
                assert(name[i] == cs@[start + i]);
            }
        }
        return None;
    }
    let last = dot - 1;
    proof {
        assert(name[last - start] == '.');
        let j = choose|j: int|
            0 < j < name.len() && name[j] == '.' && forall|k: int|
                j < k < name.len() ==> #[trigger] name[k] != '.';
        if j < last - start {
            assert(name[last - start] != '.');
        }
        if j > last - start {
            assert(cs@[start + j] != '.');
        }
        assert(name.subrange(j + 1, name.len() as int) =~= cs@.subrange(dot as int, n as int));
    }
    let mut e: Vec<char> = Vec::new();
    let mut k = dot;
    while k < n
        invariant
            dot <= k <= n,
            n == cs@.len(),
            e@ == cs@.subrange(dot as int, k as int),
        decreases n - k,
    {
        e.push(cs[k]);
        k += 1;
    }
    Some(e)
}

/// What following an explorer commit does to a document: its text and
/// line endings stay; a file under a deleted path is no longer backed by a
/// file (no path, no saved text); a file under the first renamed path that
/// covers it moves with it; any other document is unchanged.
pub open spec fn reconciled(before: Document, after: Document, report: CommitReport) -> bool {
    &&& after.buffer == before.buffer
    &&& after.crlf == before.crlf
    &&& after.bom == before.bom
    &&& match before.path {
        None => after.path is None && after.saved == before.saved,
        Some(p) => if exists|i: int|
            0 <= i < report.deleted@.len() && path_starts_with(p@, #[trigger] report.deleted@[i]@) {
            after.path is None && after.saved is None
        } else {
            after.saved == before.saved && match first_rename(report.renamed_views(), p@, 0) {
                Some((o, n)) => opt_view(after.path) == Some(rebase(p@, o, n)),
                None => after.path == before.path,
            }
        },
    }
}

/// `std::path::MAIN_SEPARATOR`, the platform's path separator: `\` on
/// Windows and `/` elsewhere. Nothing is stated of it: it is the machine's.
#[verifier::external_body]
fn main_separator() -> (r: char) {
    std::path::MAIN_SEPARATOR
}

impl Document {
    pub open spec fn wf(&self) -> bool {
        true
    }

    /// A new document holding `text`, with the platform's line ending when the
    /// text has no newline to follow.
    pub fn untitled_for_platform(text: &str, platform_crlf: bool) -> (d: Document)
        requires
            text@.len() < usize::MAX,
        ensures
            d.buffer.texts() == split_lines(without_bom(text@)),
            !d.buffer.spec_dirty(),
            d.path is None,
            d.saved is None,
            d.bom == starts_with_bom(text@),
            d.crlf == match first_newline_is_crlf(text@) {
                Some(b) => b,
                None => platform_crlf,
            },
    {
        let cs = chars_vec(text);
        let mut i: usize = 0;
        while i < cs.len() && cs[i] != '\n'
            invariant
                i <= cs@.len(),
                cs@ == text@,
                forall|k: int| 0 <= k < i ==> #[trigger] cs@[k] != '\n',
            decreases cs.len() - i,
        {
            i += 1;
        }
        let crlf = if i < cs.len() {
            i > 0 && cs[i - 1] == '\r'
        } else {
            platform_crlf
        };
        proof {
            if i < cs.len() {
                let j = choose|j: int|
                    0 <= j < text@.len() && text@[j] == '\n' && forall|k: int|
                        0 <= k < j ==> #[trigger] text@[k] != '\n';
                if j < i {
                    assert(cs@[j] != '\n');
                }
                if j > i {
                    assert(text@[i as int] != '\n');
                }
            }
        }
        let bom = cs.len() > 0 && cs[0] == '\u{feff}';
        let body = if bom {
            text.substring_char(1, cs.len())
        } else {
            text
        };
        assert(body@ =~= without_bom(text@));
        Document { buffer: Buffer::new(body), path: None, crlf, bom, saved: None }
    }

    /// A new document; the first newline sets the line ending, and without
    /// one the platform's default is taken (`\r\n` on Windows, `\n` elsewhere).
    pub fn untitled(text: &str) -> (d: Document)
        requires
            text@.len() < usize::MAX,
        ensures
            d.buffer.texts() == split_lines(without_bom(text@)),
            !d.buffer.spec_dirty(),
            d.path is None,
            d.saved is None,
            d.bom == starts_with_bom(text@),
            first_newline_is_crlf(text@) matches Some(b) ==> d.crlf == b,
    {
        let platform_crlf = main_separator() == '\\';
        Self::untitled_for_platform(text, platform_crlf)
    }

    /// A document for a file's text, read from `path`.
    pub fn opened(path: String, text: String) -> (d: Document)
        requires
            text@.len() < usize::MAX,
        ensures
            d.buffer.texts() == split_lines(without_bom(text@)),
            !d.buffer.spec_dirty(),
            opt_view(d.path) == Some(path@),
            opt_view(d.saved) == Some(text@),
            d.bom == starts_with_bom(text@),
            first_newline_is_crlf(text@) matches Some(b) ==> d.crlf == b,
    {
        let mut d = Self::untitled(text.as_str());
        d.path = Some(path);
        d.saved = Some(text);
        d
    }

    pub open spec fn spec_is_markdown(&self) -> bool {
        match self.path {
            None => true,
            Some(p) => match extension(file_name(p@)) {
                Some(e) => is_md(e),
                None => false,
            },
        }
    }

    /// Untitled documents and `.md` files (in any case) are Markdown.
    pub fn is_markdown(&self) -> (r: bool)
        ensures
            r == self.spec_is_markdown(),
    {
        match &self.path {
            None => true,
            Some(p) => match path_extension(p.as_str()) {
                Some(e) => e.len() == 2 && ascii_lower_exec(e[0]) == 'm' && ascii_lower_exec(e[1]) == 'd',
                None => false,
            },
        }
    }

    pub open spec fn text_view(&self) -> Seq<char> {
        join_lines(self.buffer.texts())
    }

    /// The file contents to write: the buffer text in the document's line ending and BOM.
    pub fn encoded_text(&self) -> (r: String)
        ensures
            r@ == encode_text(self.text_view(), self.crlf, self.bom),
    {
        let text = self.buffer.text();
        let cs = chars_vec(text.as_str());
        let mut out: Vec<char> = Vec::new();
        if self.bom {
            out.push('\u{feff}');
        }
        let ghost head = out@;
        let mut i: usize = 0;
        while i < cs.len()
            invariant
                i <= cs@.len(),
                out@ == head + (if self.crlf {
                    with_crlf(cs@.take(i as int))
                } else {
                    cs@.take(i as int)
                }),
            decreases cs.len() - i,
        {
            if self.crlf && cs[i] == '\n' {
                out.push('\r');
            }
            out.push(cs[i]);
            assert(cs@.take(i + 1).drop_last() =~= cs@.take(i as int));
            i += 1;
        }
        assert(cs@.take(cs.len() as int) =~= cs@);
        string_from_chars(out.as_slice())
    }

    pub open spec fn spec_check_save(&self, path: Seq<char>, disk: DiskText, force: bool) -> Result<
        (),
        SaveError,
    > {
        if force {
            Ok(())
        } else {
            match disk {
                DiskText::Text(current) => if opt_view(self.path) != Some(path) {
                    Err(SaveError::AlreadyExists)
                } else if opt_view(self.saved) != Some(current@) {
                    Err(SaveError::ChangedOnDisk)
                } else {
                    Ok(())
                },
                DiskText::Missing => if opt_view(self.path) == Some(path) && self.saved is Some {
                    Err(SaveError::RemovedOnDisk)
                } else {
                    Ok(())
                },
                DiskText::Unreadable => Err(SaveError::Unreadable),
            }
        }
    }

    /// Whether saving to the canonical `path`, which currently holds `disk`, may
    /// proceed. Without `force`, another file is never replaced, and changes or
    /// a removal on disk since the last read or write are never overwritten.
    pub fn check_save(&self, path: &str, disk: &DiskText, force: bool) -> (r: Result<(), SaveError>)
        ensures
            r == self.spec_check_save(path@, *disk, force),
    {
        if force {
            return Ok(());
        }
        let same_path = match &self.path {
            Some(p) => p.as_str().unicode_len() == path.unicode_len() && crate::text::chars_equal(
                chars_vec(p.as_str()).as_slice(),
                chars_vec(path).as_slice(),
            ),
            None => false,
        };
        match disk {
            DiskText::Text(current) => {
                if !same_path {
                    return Err(SaveError::AlreadyExists);
                }
                let unchanged = match &self.saved {
                    Some(s) => *s == *current,
                    None => false,
                };
                if !unchanged {
                    return Err(SaveError::ChangedOnDisk);
                }
                Ok(())
            },
            DiskText::Missing => {
                if same_path && self.saved.is_some() {
                    return Err(SaveError::RemovedOnDisk);
                }
                Ok(())
            },
            DiskText::Unreadable => Err(SaveError::Unreadable),
        }
    }

    /// After `text` was written to `path`: the document is named by `path`,
    /// remembers `text` as the disk state, and is clean.
    pub fn finish_save(&mut self, path: String, text: String)
        ensures
            opt_view(final(self).path) == Some(path@),
            opt_view(final(self).saved) == Some(text@),
            final(self).buffer.lines == old(self).buffer.lines,
            !final(self).buffer.spec_dirty(),
            final(self).crlf == old(self).crlf,
            final(self).bom == old(self).bom,
    {
        self.saved = Some(text);
        self.path = Some(path);
        self.buffer.mark_saved();
    }

    /// Follow an explorer commit: a document below a deleted path becomes
    /// untitled; one below a renamed path moves with the first matching rename.
    /// The original path is compared once, so rename cycles apply once.
    pub fn reconcile(&mut self, report: &CommitReport)
        ensures
            reconciled(*old(self), *final(self), *report),
            final(self).buffer == old(self).buffer,
            final(self).buffer.lines == old(self).buffer.lines,
            final(self).crlf == old(self).crlf,
            final(self).bom == old(self).bom,
            match old(self).path {
                None => final(self).path is None && final(self).saved == old(self).saved,
                Some(p) => if exists|i: int|
                    0 <= i < report.deleted@.len() && path_starts_with(
                        p@,
                        #[trigger] report.deleted@[i]@,
                    ) {
                    final(self).path is None && final(self).saved is None
                } else {
                    final(self).saved == old(self).saved && match first_rename(
                        report.renamed_views(),
                        p@,
                        0,
                    ) {
                        Some((o, n)) => opt_view(final(self).path) == Some(rebase(p@, o, n)),
                        None => final(self).path == old(self).path,
                    }
                },
            },
    {
        let p = match &self.path {
            Some(p) => p.clone(),
            None => return,
        };
        let pc = chars_vec(p.as_str());
        let mut i: usize = 0;
        while i < report.deleted.len()
            invariant
                i <= report.deleted@.len(),
                pc@ == p@,
                self.buffer == old(self).buffer,
                self.crlf == old(self).crlf,
                self.bom == old(self).bom,
                self.saved == old(self).saved,
                self.path == old(self).path,
                old(self).path == Some(p),

                forall|k: int| 0 <= k < i ==> !path_starts_with(p@, #[trigger] report.deleted@[k]@),
            decreases report.deleted.len() - i,
        {
            let dc = chars_vec(report.deleted[i].as_str());
            if starts_with_path(&pc, &dc) {
                self.path = None;
                self.saved = None;
                return;
            }
            i += 1;
        }
        let mut j: usize = 0;
        while j < report.renamed.len()
            invariant
                j <= report.renamed@.len(),
                pc@ == p@,
                forall|k: int| 0 <= k < report.deleted@.len() ==> !path_starts_with(p@, #[trigger] report.deleted@[k]@),
                self.buffer == old(self).buffer,
                self.crlf == old(self).crlf,
                self.bom == old(self).bom,
                self.saved == old(self).saved,
                self.path == old(self).path,
                old(self).path == Some(p),

                first_rename(report.renamed_views(), p@, j as int) == first_rename(
                    report.renamed_views(),
                    p@,
                    0,
                ),
            decreases report.renamed.len() - j,
        {
            let oc = chars_vec(report.renamed[j].0.as_str());
            assert(report.renamed_views()[j as int] == (
                report.renamed@[j as int].0@,
                report.renamed@[j as int].1@,
            ));
            if starts_with_path(&pc, &oc) {
                let nc = chars_vec(report.renamed[j].1.as_str());
                let moved = rebase_exec(&pc, &oc, &nc);
                self.path = Some(string_from_chars(moved.as_slice()));
                return;
            }
            j += 1;
        }
    }
}

fn is_prefix(a: &Vec<char>, b: &Vec<char>) -> (r: bool)
    ensures
        r == a@.is_prefix_of(b@),
{
    if a.len() > b.len() {
        return false;
    }
    let mut i: usize = 0;
    while i < a.len()
        invariant
            i <= a@.len() <= b@.len(),
            forall|k: int| 0 <= k < i ==> a@[k] == b@[k],
        decreases a.len() - i,
    {
        if a[i] != b[i] {
            return false;
        }
        i += 1;
    }
    true
}

pub(crate) fn starts_with_path(path: &Vec<char>, prefix: &Vec<char>) -> (r: bool)
    ensures
        r == path_starts_with(path@, prefix@),
{
    if is_prefix(prefix, path) && prefix.len() == path.len() {
        assert(path@ =~= prefix@);
        return true;
    }
    if prefix.len() > 0 && prefix[prefix.len() - 1] == '/' && is_prefix(prefix, path) {
        return true;
    }
    let mut with_slash = prefix.clone();
    with_slash.push('/');
    assert(with_slash@ =~= prefix@.push('/'));
    let r = is_prefix(&with_slash, path);
    proof {
        if path@ == prefix@ {
            assert(prefix@.is_prefix_of(path@));
        }
    }
    r
}

fn rebase_exec(path: &Vec<char>, old: &Vec<char>, new: &Vec<char>) -> (r: Vec<char>)
    requires
        path_starts_with(path@, old@),
    ensures
        r@ == rebase(path@, old@, new@),
{
    if path.len() == old.len() {
        assert(path@ =~= old@);
        return new.clone();
    }
    let skip = if old.len() > 0 && old[old.len() - 1] == '/' {
        old.len()
    } else {
        old.len() + 1
    };
    proof {
        if !(old@.len() > 0 && old@.last() == '/') {
            assert(old@.push('/').is_prefix_of(path@));
        }
    }
    let mut out = new.clone();
    let rest_starts_root = skip < path.len() && path[skip] == '/';
    if rest_starts_root {
        out = Vec::new();
    } else if new.len() > 0 && new[new.len() - 1] != '/' {
        out.push('/');
    }
    let ghost head = out@;
    let mut i = skip;
    while i < path.len()
        invariant
            skip <= i <= path@.len(),
            out@ == head + path@.subrange(skip as int, i as int),
        decreases path.len() - i,
    {
        out.push(path[i]);
        assert(path@.subrange(skip as int, i + 1) =~= path@.subrange(skip as int, i as int).push(
            path@[i as int],
        ));
        i += 1;
    }
    assert(out@ =~= crate::image_assets::join_path(new@, path@.subrange(skip as int, path@.len() as int)));
    out
}

/// A save that is not forced never replaces what it did not see: an existing
/// file is replaced only when it is this document's own file and still holds
/// exactly the text last read or written, and a file that disappeared since
/// is not silently recreated.
pub proof fn law_unforced_save_preserves_external_changes(d: Document, path: Seq<char>, disk: DiskText)
    ensures
        disk matches DiskText::Text(current) ==> (d.spec_check_save(path, disk, false) is Ok ==> opt_view(
            d.path,
        ) == Some(path) && opt_view(d.saved) == Some(current@)),
        (d.spec_check_save(path, disk, false) is Ok && disk is Missing) ==> !(opt_view(d.path) == Some(path)
            && d.saved is Some),
        d.spec_check_save(path, disk, false) is Ok ==> !(disk is Unreadable),
{
}

/// A document is Markdown exactly when it is untitled or its file name's
/// extension is `md`, in any letter case.
pub proof fn law_markdown_is_untitled_or_md(d: Document)
    ensures
        d.spec_is_markdown() <==> match d.path {
            None => true,
            Some(p) => extension(file_name(p@)) matches Some(e) && e.len() == 2 && ascii_lower(e[0])
                == 'm' && ascii_lower(e[1]) == 'd',
        },
{
}

/// Every line break of `t` is `\r\n`.
pub open spec fn all_crlf(t: Seq<char>) -> bool {
    forall|i: int| 0 <= i < t.len() && #[trigger] t[i] == '\n' ==> i > 0 && t[i - 1] == '\r'
}

/// No line break of `t` is `\r\n`.
pub open spec fn no_crlf(t: Seq<char>) -> bool {
    forall|i: int| 0 <= i < t.len() && #[trigger] t[i] == '\n' ==> !(i > 0 && t[i - 1] == '\r')
}

pub open spec fn join_prefix(l: Seq<Seq<char>>) -> Seq<char> {
    if l.len() <= 1 {
        Seq::empty()
    } else {
        join_lines(l.drop_last()) + seq!['\n']
    }
}

proof fn lemma_join_last(l: Seq<Seq<char>>, y: Seq<char>)
    requires
        l.len() >= 1,
    ensures
        join_lines(l) == join_prefix(l) + l.last(),
        join_lines(l.drop_last().push(y)) == join_prefix(l) + y,
{
    let l2 = l.drop_last().push(y);
    assert(l2.drop_last() =~= l.drop_last());
    if l.len() == 1 {
        assert(join_prefix(l) + l.last() =~= l[0]);
        assert(join_prefix(l) + y =~= y);
    }
}

proof fn lemma_split_join(b: Seq<char>)
    ensures
        split_lines(b).len() >= 1,
        no_crlf(b) ==> join_lines(split_lines(b)) == b,
        all_crlf(b) ==> with_crlf(join_lines(split_lines(b))) == b,
        b.len() > 0 && b.last() != '\n' ==> split_lines(b).last().len() > 0 && split_lines(b).last().last()
            == b.last(),
        b.len() > 0 && b.last() == '\n' ==> split_lines(b).last().len() == 0,
    decreases b.len(),
{
    if b.len() > 0 {
        let p = b.drop_last();
        let c = b.last();
        lemma_split_join(p);
        let l = split_lines(p);
        assert(no_crlf(b) ==> no_crlf(p)) by {
            if no_crlf(b) {
                assert forall|i: int| 0 <= i < p.len() && #[trigger] p[i] == '\n' implies !(i > 0 && p[i - 1] == '\r') by {
                    assert(b[i] == p[i]);
                    if i > 0 {
                        assert(b[i - 1] == p[i - 1]);
                    }
                }
            }
        }
        assert(all_crlf(b) ==> all_crlf(p)) by {
            if all_crlf(b) {
                assert forall|i: int| 0 <= i < p.len() && #[trigger] p[i] == '\n' implies i > 0 && p[i - 1] == '\r' by {
                    assert(b[i] == p[i]);
                    assert(i > 0 && b[i - 1] == '\r');
                    assert(b[i - 1] == p[i - 1]);
                }
            }
        }
        if c == '\n' {
            let last = l.last();
            let trimmed = if last.len() > 0 && last.last() == '\r' {
                last.drop_last()
            } else {
                last
            };
            let l2 = l.drop_last().push(trimmed).push(Seq::<char>::empty());
            assert(split_lines(b) == l2);
            assert(l2.drop_last() =~= l.drop_last().push(trimmed));
            lemma_join_last(l, trimmed);
            assert(join_lines(l2) == join_lines(l.drop_last().push(trimmed)) + seq!['\n'] + Seq::<char>::empty());
            assert(b =~= p + seq!['\n']);
            if no_crlf(b) {
                if last.len() > 0 && last.last() == '\r' {
                    assert(p.len() > 0 && p.last() == '\r');
                    assert(b[b.len() - 2] == '\r');
                    assert(b[b.len() - 1] == '\n');
                }
                assert(join_lines(l2) =~= b);
            }
            if all_crlf(b) {
                assert(b[b.len() - 1] == '\n');
                assert(b.len() > 1 && b[b.len() - 2] == '\r');
                assert(p.last() == '\r');
                assert(last.len() > 0 && last.last() == '\r');
                let jt = join_prefix(l) + trimmed;
                assert(join_lines(l) =~= jt.push('\r'));
                assert(jt.push('\r').drop_last() =~= jt);
                assert(with_crlf(join_lines(l)) == with_crlf(jt).push('\r'));
                let j2 = join_lines(l2);
                assert(j2 =~= jt + seq!['\n']);
                assert((jt + seq!['\n']).drop_last() =~= jt);
                assert(with_crlf(j2) == with_crlf(jt) + seq!['\r', '\n']);
                assert(with_crlf(j2) =~= b);
            }
        } else {
            let l2 = l.drop_last().push(l.last().push(c));
            assert(split_lines(b) == l2);
            lemma_join_last(l, l.last().push(c));
            assert(join_lines(l2) =~= join_lines(l).push(c));
            assert(join_lines(l).push(c).drop_last() =~= join_lines(l));
            if no_crlf(b) {
                assert(join_lines(l2) =~= b);
            }
            if all_crlf(b) {
                assert(with_crlf(join_lines(l2)) == with_crlf(join_lines(l)).push(c));
                assert(with_crlf(join_lines(l2)) =~= b);
            }
        }
    }
}

/// A file with one kind of line break throughout (or none), opened and
/// saved without edits, is written back exactly as it was read: its BOM,
/// its line breaks and any lone `\r` all come back.
pub proof fn law_open_then_save_is_identity(t: Seq<char>)
    requires
        all_crlf(t) || no_crlf(t),
    ensures
        encode_text(
            join_lines(split_lines(without_bom(t))),
            match first_newline_is_crlf(t) {
                Some(b) => b,
                None => false,
            },
            starts_with_bom(t),
        ) == t,
{
    let b = without_bom(t);
    assert(all_crlf(t) ==> all_crlf(b)) by {
        if all_crlf(t) && starts_with_bom(t) {
            assert forall|i: int| 0 <= i < b.len() && #[trigger] b[i] == '\n' implies i > 0 && b[i - 1] == '\r' by {
                assert(t[i + 1] == b[i]);
                assert(t[i] == '\r');
                if i == 0 {
                    assert(t[0] == '\u{feff}');
                }
            }
        }
    }
    assert(no_crlf(t) ==> no_crlf(b)) by {
        if no_crlf(t) && starts_with_bom(t) {
            assert forall|i: int| 0 <= i < b.len() && #[trigger] b[i] == '\n' implies !(i > 0 && b[i - 1] == '\r') by {
                assert(t[i + 1] == b[i]);
                if i > 0 {
                    assert(t[i] == b[i - 1]);
                }
            }
        }
    }
    lemma_split_join(b);
    if exists|w: int| 0 <= w < t.len() && t[w] == '\n' {
        let w = choose|w: int| 0 <= w < t.len() && t[w] == '\n';
        lemma_first_newline(t, w);
        let i = choose|i: int|
            0 <= i < t.len() && t[i] == '\n' && forall|k: int| 0 <= k < i ==> #[trigger] t[k] != '\n';
        assert(t[i] == '\n');
        assert(first_newline_is_crlf(t) == Some(i > 0 && t[i - 1] == '\r'));
    }
    if starts_with_bom(t) {
        assert(seq!['\u{feff}'] + b =~= t);
    }
}

proof fn lemma_first_newline(t: Seq<char>, w: int)
    requires
        0 <= w < t.len(),
        t[w] == '\n',
    ensures
        exists|i: int| 0 <= i < t.len() && t[i] == '\n' && forall|k: int| 0 <= k < i ==> #[trigger] t[k] != '\n',
    decreases w,
{
    if exists|k: int| 0 <= k < w && t[k] == '\n' {
        let k = choose|k: int| 0 <= k < w && t[k] == '\n';
        lemma_first_newline(t, k);
    } else {
        assert(forall|k: int| 0 <= k < w ==> #[trigger] t[k] != '\n');
    }
}

} // verus!
