//! The line store behind documents and the file explorer: text split into
//! lines with stable identities, a caret, and the last saved contents.
use vstd::prelude::*;
use vstd::string::StringExecFns;
use vstd::utf8::{decode_utf8, encode_utf8, is_char_boundary};

use crate::text::{chars_vec, string_from_chars};

verus! {

/// One line of text and the identity it keeps while it is edited.
#[derive(Clone, Debug)]
pub struct Line {
    pub id: u64,
    pub text: String,
}

pub struct Buffer {
    pub lines: Vec<Line>,
    pub row: usize,
    pub col: usize,
    pub saved: Vec<String>,
}

pub open spec fn line_texts(lines: Seq<Line>) -> Seq<Seq<char>> {
    lines.map_values(|l: Line| l.text@)
}

pub open spec fn string_texts(v: Seq<String>) -> Seq<Seq<char>> {
    v.map_values(|s: String| s@)
}

/// Lines joined with `\n`.
pub open spec fn join_lines(lines: Seq<Seq<char>>) -> Seq<char>
    decreases lines.len(),
{
    if lines.len() == 0 {
        Seq::empty()
    } else if lines.len() == 1 {
        lines[0]
    } else {
        join_lines(lines.drop_last()) + seq!['\n'] + lines.last()
    }
}

/// The text split at each `\n`, with the `\r` of each `\r\n` removed. An empty
/// text is one empty line.
pub open spec fn split_lines(text: Seq<char>) -> Seq<Seq<char>>
    decreases text.len(),
{
    if text.len() == 0 {
        seq![Seq::empty()]
    } else {
        let rest = split_lines(text.drop_last());
        let c = text.last();
        if c == '\n' {
            let last = rest.last();
            let trimmed = if last.len() > 0 && last.last() == '\r' {
                last.drop_last()
            } else {
                last
            };
            rest.drop_last().push(trimmed).push(Seq::empty())
        } else {
            rest.drop_last().push(rest.last().push(c))
        }
    }
}

proof fn lemma_split_lines_nonempty(text: Seq<char>)
    ensures
        split_lines(text).len() >= 1,
    decreases text.len(),
{
    if text.len() > 0 {
        lemma_split_lines_nonempty(text.drop_last());
    }
}

impl Buffer {
    pub open spec fn texts(&self) -> Seq<Seq<char>> {
        line_texts(self.lines@)
    }

    pub open spec fn saved_texts(&self) -> Seq<Seq<char>> {
        string_texts(self.saved@)
    }

    pub open spec fn spec_dirty(&self) -> bool {
        self.texts() != self.saved_texts()
    }

    /// A clean buffer holding `text`, its lines numbered 1, 2, ... from the top.
    pub fn new(text: &str) -> (b: Buffer)
        requires
            text@.len() < usize::MAX,
        ensures
            b.texts() == split_lines(text@),
            forall|i: int| 0 <= i < b.lines@.len() ==> #[trigger] b.lines@[i].id == i + 1,
            b.row == 0,
            b.col == 0,
            !b.spec_dirty(),
    {
        let cs = chars_vec(text);
        let mut lines: Vec<Line> = Vec::new();
        let mut current: Vec<char> = Vec::new();
        let mut i: usize = 0;
        proof {
            lemma_split_lines_nonempty(text@);
        }
        while i < cs.len()
            invariant
                i <= cs@.len(),
                cs@ == text@,
                cs@.len() < usize::MAX,
                lines@.len() <= i,
                line_texts(lines@).push(current@) == split_lines(cs@.take(i as int)),
                forall|k: int| 0 <= k < lines@.len() ==> #[trigger] lines@[k].id == k + 1,
            decreases cs.len() - i,
        {
            let c = cs[i];
            let ghost before = split_lines(cs@.take(i as int));
            assert(cs@.take(i + 1).drop_last() =~= cs@.take(i as int));
            if c == '\n' {
                let n = current.len();
                let ghost cur = current@;
                if n > 0 && current[n - 1] == '\r' {
                    current.pop();
                    assert(current@ =~= cur.drop_last());
                }
                let id = lines.len() as u64 + 1;
                let ghost prev = line_texts(lines@);
                lines.push(Line { id, text: string_from_chars(current.as_slice()) });
                assert(line_texts(lines@) =~= prev.push(current@));
                current = Vec::new();
                assert(line_texts(lines@).push(current@) =~= before.drop_last().push(
                    if cur.len() > 0 && cur.last() == '\r' {
                        cur.drop_last()
                    } else {
                        cur
                    },
                ).push(Seq::empty()));
            } else {
                let ghost cur = current@;
                current.push(c);
                assert(line_texts(lines@).push(current@) =~= before.drop_last().push(
                    before.last().push(c),
                ));
            }
            i += 1;
        }
        assert(cs@.take(cs.len() as int) =~= cs@);
        let id = lines.len() as u64 + 1;
        let ghost prev = line_texts(lines@);
        lines.push(Line { id, text: string_from_chars(current.as_slice()) });
        assert(line_texts(lines@) =~= prev.push(current@));
        let saved = Self::texts_of(&lines);
        Buffer { lines, row: 0, col: 0, saved }
    }

    fn texts_of(lines: &Vec<Line>) -> (r: Vec<String>)
        ensures
            string_texts(r@) == line_texts(lines@),
    {
        let mut r: Vec<String> = Vec::new();
        let mut i: usize = 0;
        while i < lines.len()
            invariant
                i <= lines@.len(),
                string_texts(r@) == line_texts(lines@).take(i as int),
            decreases lines.len() - i,
        {
            let ghost prev = string_texts(r@);
            r.push(lines[i].text.clone());
            assert(string_texts(r@) =~= prev.push(lines@[i as int].text@));
            assert(line_texts(lines@).take(i + 1) =~= line_texts(lines@).take(i as int).push(
                lines@[i as int].text@,
            ));
            i += 1;
        }
        assert(line_texts(lines@).take(lines@.len() as int) =~= line_texts(lines@));
        r
    }

    /// The whole text, lines joined with `\n`.
    pub fn text(&self) -> (r: String)
        ensures
            r@ == join_lines(self.texts()),
    {
        let mut out: Vec<char> = Vec::new();
        let mut i: usize = 0;
        while i < self.lines.len()
            invariant
                i <= self.lines@.len(),
                out@ == join_lines(self.texts().take(i as int)),
            decreases self.lines.len() - i,
        {
            let lc = chars_vec(self.lines[i].text.as_str());
            let ghost prev = out@;
            if i > 0 {
                out.push('\n');
            }
            let mut k: usize = 0;
            while k < lc.len()
                invariant
                    k <= lc@.len(),
                    out@ == (if i > 0 {
                        prev + seq!['\n']
                    } else {
                        prev
                    }) + lc@.take(k as int),
                decreases lc.len() - k,
            {
                out.push(lc[k]);
                assert(lc@.take(k + 1) =~= lc@.take(k as int).push(lc@[k as int]));
                k += 1;
            }
            assert(lc@.take(lc.len() as int) =~= lc@);
            assert(self.texts().take(i + 1).drop_last() =~= self.texts().take(i as int));
            assert(self.texts()[i as int] == lc@);
            if i == 0 {
                assert(self.texts().take(1) =~= seq![lc@]);
                assert(out@ =~= lc@);
            }
            i += 1;
        }
        assert(self.texts().take(self.lines@.len() as int) =~= self.texts());
        string_from_chars(out.as_slice())
    }

    /// Whether the lines differ from the contents last marked saved.
    pub fn dirty(&self) -> (r: bool)
        ensures
            r == self.spec_dirty(),
    {
        if self.lines.len() != self.saved.len() {
            assert(self.texts().len() != self.saved_texts().len());
            return true;
        }
        let mut i: usize = 0;
        while i < self.lines.len()
            invariant
                i <= self.lines@.len(),
                self.lines@.len() == self.saved@.len(),
                forall|k: int| 0 <= k < i ==> #[trigger] self.texts()[k] == self.saved_texts()[k],
            decreases self.lines.len() - i,
        {
            if self.lines[i].text != self.saved[i] {
                assert(self.texts()[i as int] != self.saved_texts()[i as int]);
                return true;
            }
            i += 1;
        }
        assert(self.texts() =~= self.saved_texts());
        false
    }

    /// Put the caret back at `row`, `col` within the text as it now is: on
    /// the last line at most, and at the start of the grapheme cluster of
    /// that line that starts at or before `col`.
    pub fn restore_cursor(&mut self, row: usize, col: usize)
        ensures
            final(self).lines == old(self).lines,
            final(self).saved == old(self).saved,
            old(self).lines@.len() == 0 ==> final(self).row == 0 && final(self).col == 0,
            old(self).lines@.len() > 0 ==> {
                &&& final(self).row == if row < old(self).lines@.len() {
                    row as int
                } else {
                    old(self).lines@.len() - 1
                }
                &&& final(self).col == crate::text_input::spec_grapheme_column(
                    old(self).lines@[final(self).row as int].text@,
                    col as int,
                    false,
                )
            },
    {
        let n = self.lines.len();
        if n == 0 {
            self.row = 0;
            self.col = 0;
            return;
        }
        let r = if row < n {
            row
        } else {
            n - 1
        };
        let c = crate::text_input::grapheme_column(self.lines[r].text.as_str(), col, false);
        self.row = r;
        self.col = c;
    }

    /// The current contents become the saved contents.
    pub fn mark_saved(&mut self)
        ensures
            final(self).lines == old(self).lines,
            final(self).row == old(self).row,
            final(self).col == old(self).col,
            !final(self).spec_dirty(),
    {
        self.saved = Self::texts_of(&self.lines);
    }
}

} // verus!

verus! {

impl Buffer {
    /// A clean buffer with one line per text, numbered 1, 2, ... from the
    /// top; no texts give one empty line.
    pub fn from_lines(texts: Vec<String>) -> (b: Buffer)
        requires
            texts@.len() < u64::MAX,
        ensures
            b.texts() == if texts@.len() == 0 {
                seq![Seq::<char>::empty()]
            } else {
                string_texts(texts@)
            },
            forall|i: int| 0 <= i < b.lines@.len() ==> #[trigger] b.lines@[i].id == i + 1,
            b.row == 0,
            b.col == 0,
            !b.spec_dirty(),
    {
        let mut lines: Vec<Line> = Vec::new();
        if texts.len() == 0 {
            lines.push(Line { id: 1, text: String::new() });
            assert(line_texts(lines@) =~= seq![Seq::<char>::empty()]);
        } else {
            let mut i: usize = 0;
            while i < texts.len()
                invariant
                    i <= texts@.len() < u64::MAX,
                    lines@.len() == i,
                    line_texts(lines@) == string_texts(texts@).take(i as int),
                    forall|k: int| 0 <= k < lines@.len() ==> #[trigger] lines@[k].id == k + 1,
                decreases texts.len() - i,
            {
                let ghost prev = line_texts(lines@);
                lines.push(Line { id: i as u64 + 1, text: texts[i].clone() });
                assert(line_texts(lines@) =~= prev.push(texts@[i as int]@));
                assert(string_texts(texts@).take(i + 1) =~= string_texts(texts@).take(i as int).push(
                    texts@[i as int]@,
                ));
                i += 1;
            }
            assert(string_texts(texts@).take(texts@.len() as int) =~= string_texts(texts@));
        }
        let saved = Self::texts_of(&lines);
        Buffer { lines, row: 0, col: 0, saved }
    }
}

} // verus!

verus! {

/// The UTF-8 bytes of each line.
pub open spec fn line_bytes(lines: Seq<Line>) -> Seq<Seq<u8>> {
    lines.map_values(|l: Line| encode_utf8(l.text@))
}

/// The first byte position at or after `from` where `query` occurs in `bytes`.
pub open spec fn first_match(bytes: Seq<u8>, query: Seq<u8>, from: int) -> Option<int>
    decreases bytes.len() + 1 - from,
{
    if from < 0 || from + query.len() > bytes.len() {
        None
    } else if bytes.subrange(from, from + query.len()) == query {
        Some(from)
    } else {
        first_match(bytes, query, from + 1)
    }
}

/// The line `offset` lines below `row`, wrapping around to the top once.
pub open spec fn wrapped_row(row: int, offset: int, count: int) -> int {
    if row + offset < count {
        row + offset
    } else {
        row + offset - count
    }
}

/// The first occurrence of `query`, trying the lines from `row` down and
/// around, the first of them from byte `start` on, and finally the start of
/// line `row` again: its line and byte position.
pub open spec fn search_from(lines: Seq<Seq<u8>>, row: int, start: int, query: Seq<u8>, offset: int) -> Option<
    (int, int),
>
    decreases lines.len() + 1 - offset,
{
    if offset < 0 || offset > lines.len() || lines.len() == 0 {
        None
    } else {
        let candidate = wrapped_row(row, offset, lines.len() as int);
        let text = lines[candidate];
        let from = if offset == 0 {
            if start < text.len() {
                start
            } else {
                text.len() as int
            }
        } else {
            0
        };
        match first_match(text, query, from) {
            Some(i) => Some((candidate, i)),
            None => search_from(lines, row, start, query, offset + 1),
        }
    }
}

/// Where the next search starts: at the caret for a new search, else after
/// the grapheme cluster under the caret (at the caret at the end of a line).
pub open spec fn search_start(text: Seq<char>, col: int, first: bool) -> int {
    if first {
        col
    } else {
        let bytes = encode_utf8(text);
        let clusters = crate::terminal::extended_grapheme_clusters(decode_utf8(bytes.subrange(col, bytes.len() as int)));
        if clusters.len() > 0 {
            col + encode_utf8(clusters[0]).len()
        } else {
            col
        }
    }
}

fn first_match_exec(bytes: &[u8], query: &[u8], from: usize) -> (r: Option<usize>)
    requires
        from <= bytes@.len(),
    ensures
        r matches Some(i) ==> first_match(bytes@, query@, from as int) == Some(i as int),
        r is None ==> first_match(bytes@, query@, from as int) is None,
{
    let n = bytes.len();
    let m = query.len();
    if m > n - from {
        return None;
    }
    let mut k: usize = from;
    while k <= n - m
        invariant
            from <= k,
            n == bytes@.len(),
            m == query@.len(),
            m <= n,
            k <= n - m + 1,
            first_match(bytes@, query@, k as int) == first_match(bytes@, query@, from as int),
        decreases n - m + 1 - k,
    {
        let mut j: usize = 0;
        let mut same = true;
        while j < m
            invariant
                j <= m,
                k + m <= n,
                n == bytes@.len(),
                m == query@.len(),
                same == forall|t: int| 0 <= t < j ==> bytes@[k + t] == #[trigger] query@[t],
            decreases m - j,
        {
            if bytes[k + j] != query[j] {
                same = false;
            }
            j += 1;
        }
        if same {
            assert(bytes@.subrange(k as int, k + m) =~= query@);
            return Some(k);
        } else {
            assert(bytes@.subrange(k as int, k + m) != query@) by {
                let t = choose|t: int| 0 <= t < m && bytes@[k + t] != #[trigger] query@[t];
                assert(bytes@.subrange(k as int, k + m)[t] != query@[t]);
            }
        }
        if k == n - m {
            assert(first_match(bytes@, query@, k + 1) is None);
            return None;
        }
        k += 1;
    }
    None
}

impl Buffer {
    /// Search for `query` from the caret (`first`) or after the cluster under
    /// it, down the lines and around; move the caret to the match. The caret
    /// must be on a character boundary of its line.
    pub fn find_next(&mut self, query: &str, first: bool) -> (found: bool)
        requires
            old(self).row < old(self).lines@.len(),
            is_char_boundary(line_bytes(old(self).lines@)[old(self).row as int], old(self).col as int),
        ensures
            final(self).lines == old(self).lines,
            final(self).saved == old(self).saved,
            query@.len() == 0 ==> !found && final(self).row == old(self).row && final(self).col == old(self).col,
            query@.len() > 0 ==> match search_from(
                line_bytes(old(self).lines@),
                old(self).row as int,
                search_start(old(self).lines@[old(self).row as int].text@, old(self).col as int, first),
                encode_utf8(query@),
                0,
            ) {
                Some((r, c)) => found && final(self).row == r && final(self).col == c,
                None => !found && final(self).row == old(self).row && final(self).col == old(self).col,
            },
    {
        let q = query.as_bytes();
        assert(q@ == encode_utf8(query@));
        if q.len() == 0 {
            assert(query@.len() == 0) by {
                if query@.len() > 0 {
                    assert(encode_utf8(query@).len() >= 1);
                }
            }
            return false;
        }
        assert(query@.len() > 0) by {
            if query@.len() == 0 {
                assert(encode_utf8(query@) =~= Seq::<u8>::empty());
            }
        }
        let ghost lb = line_bytes(self.lines@);
        let n = self.lines.len();
        let row = self.row;
        let col = self.col;
        let text0 = self.lines[row].text.as_str().as_bytes();
        let len0 = text0.len();
        proof {
            vstd::utf8::encode_utf8_valid_utf8(self.lines@[row as int].text@);
        }
        assert(text0@ == lb[row as int]);
        let ghost start = search_start(self.lines@[row as int].text@, col as int, first);
        let from0: usize = if first {
            col
        } else {
            proof {
                vstd::utf8::valid_utf8_split(text0@, col as int);
            }
            let mut rest: Vec<u8> = Vec::new();
            let mut i: usize = col;
            while i < len0
                invariant
                    col <= i <= len0,
                    len0 == text0@.len(),
                    rest@ == text0@.subrange(col as int, i as int),
                decreases len0 - i,
            {
                rest.push(text0[i]);
                assert(rest@ =~= text0@.subrange(col as int, i + 1));
                i += 1;
            }
            match crate::image_assets::string_from_utf8(rest) {
                Some(suffix) => {
                    let clusters = crate::terminal::grapheme_clusters(suffix.as_str());
                    if clusters.len() > 0 {
                        let g = clusters[0].as_str().as_bytes().len();
                        assert(crate::terminal::string_views(clusters@)[0] == clusters@[0]@);
                        if g > len0 - col {
                            len0
                        } else {
                            col + g
                        }
                    } else {
                        col
                    }
                },
                None => col,
            }
        };
        assert(from0 as int == if start < len0 { start } else { len0 as int });
        let mut offset: usize = 0;
        while offset <= n
            invariant
                n == self.lines@.len(),
                row < n,
                lb == line_bytes(self.lines@),
                from0 as int == if start < lb[row as int].len() { start } else { lb[row as int].len() as int },
                search_from(lb, row as int, start, q@, offset as int) == search_from(lb, row as int, start, q@, 0),
                self.row == row,
                self.col == col,
                self.lines == old(self).lines,
                self.saved == old(self).saved,
                row == old(self).row,
                col == old(self).col,
                q@ == encode_utf8(query@),
                query@.len() > 0,
                start == search_start(old(self).lines@[row as int].text@, col as int, first),
            ensures
                search_from(lb, row as int, start, q@, 0) is None,
                self.row == row,
                self.col == col,
                self.lines == old(self).lines,
                self.saved == old(self).saved,
            decreases n + 1 - offset,
        {
            let candidate = if offset < n - row {
                row + offset
            } else {
                offset - (n - row)
            };
            let text = self.lines[candidate].text.as_str().as_bytes();
            assert(text@ == lb[candidate as int]);
            let from = if offset == 0 {
                from0
            } else {
                0
            };
            match first_match_exec(text, q, from) {
                Some(i) => {
                    assert(wrapped_row(row as int, offset as int, n as int) == candidate);
                    assert(search_from(lb, row as int, start, q@, offset as int) == Some(
                        (candidate as int, i as int),
                    ));
                    self.row = candidate;
                    self.col = i;
                    return true;
                },
                None => {},
            }
            if offset == n {
                assert(search_from(lb, row as int, start, q@, offset + 1) is None);
                break;
            }
            offset += 1;
        }
        false
    }
}

} // verus!
