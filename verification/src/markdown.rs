//! The editor's rendered view of Markdown: every physical source line with its
//! block kind, styled spans, image previews, table cells and task marker,
//! projected from one parse of the whole document. Offsets are UTF-8 byte
//! offsets into the source.
use vstd::prelude::*;
use vstd::string::StringExecFns;
use vstd::utf8::{decode_utf8, encode_utf8, valid_utf8};

use pulldown_cmark::Event::{HardBreak, Rule, SoftBreak};
use pulldown_cmark::{CodeBlockKind, Event, Options, Parser, Tag, TagEnd};
use syntect::easy::HighlightLines;
use syntect::highlighting::{FontStyle, ThemeSet};
use syntect::parsing::SyntaxSet;

use crate::image_assets::{opt_string_view, string_from_utf8};
use crate::text::{chars_vec, is_unicode_whitespace, is_whitespace, push_char};

verus! {

/// The kind of block a rendered line belongs to.
#[derive(Clone, Copy, Debug, PartialEq, Eq, Structural)]
pub enum BlockKind {
    Paragraph,
    Heading(u8),
    Quote,
    Code,
    Rule,
    List,
}

/// A table column's alignment.
#[derive(Clone, Copy, Debug, PartialEq, Eq, Structural)]
pub enum Alignment {
    /// No alignment requested for the column.
    Unspecified,
    Left,
    Center,
    Right,
}

/// A run of rendered text with one style.
#[derive(Clone, Debug)]
pub struct Span {
    pub text: String,
    pub bold: bool,
    pub italic: bool,
    pub code: bool,
    pub strike: bool,
    pub link: Option<String>,
    /// Highlighted foreground color as `#rrggbb`, when a fence names a known
    /// language. `None` keeps the renderer's default styling.
    pub color: Option<String>,
}

pub struct SpanV {
    pub text: Seq<char>,
    pub bold: bool,
    pub italic: bool,
    pub code: bool,
    pub strike: bool,
    pub link: Option<Seq<char>>,
    pub color: Option<Seq<char>>,
}

impl View for Span {
    type V = SpanV;

    open spec fn view(&self) -> SpanV {
        SpanV {
            text: self.text@,
            bold: self.bold,
            italic: self.italic,
            code: self.code,
            strike: self.strike,
            link: opt_string_view(self.link),
            color: opt_string_view(self.color),
        }
    }
}

pub open spec fn spans_view(v: Seq<Span>) -> Seq<SpanV> {
    v.map_values(|s: Span| s@)
}

pub open spec fn cells_view(v: Seq<Vec<Span>>) -> Seq<Seq<SpanV>> {
    v.map_values(|c: Vec<Span>| spans_view(c@))
}

/// One physical row of a table: the rows the whole table spans, whether this
/// row is the header or the delimiter row, and its cells.
#[derive(Debug)]
pub struct TableRow {
    pub start: usize,
    pub end: usize,
    pub header: bool,
    pub separator: bool,
    pub alignments: Vec<Alignment>,
    pub cells: Vec<Vec<Span>>,
}

pub struct TableV {
    pub start: usize,
    pub end: usize,
    pub header: bool,
    pub separator: bool,
    pub alignments: Seq<Alignment>,
    pub cells: Seq<Seq<SpanV>>,
}

impl View for TableRow {
    type V = TableV;

    open spec fn view(&self) -> TableV {
        TableV {
            start: self.start,
            end: self.end,
            header: self.header,
            separator: self.separator,
            alignments: self.alignments@,
            cells: cells_view(self.cells@),
        }
    }
}

/// An image shown below its line: its URL and its title, which may ask for a
/// preview width.
#[derive(Debug)]
pub struct PreviewImage {
    pub url: String,
    pub title: String,
}

pub open spec fn images_view(v: Seq<PreviewImage>) -> Seq<(Seq<char>, Seq<char>)> {
    v.map_values(|i: PreviewImage| (i.url@, i.title@))
}

/// One physical source line as rendered.
#[derive(Debug)]
pub struct RenderedLine {
    pub source_row: usize,
    pub kind: BlockKind,
    pub spans: Vec<Span>,
    pub images: Vec<PreviewImage>,
    pub table: Option<TableRow>,
    /// Byte offset of the task checkbox in the physical source line.
    pub task_marker: Option<usize>,
}

pub struct LineV {
    pub source_row: usize,
    pub kind: BlockKind,
    pub spans: Seq<SpanV>,
    pub images: Seq<(Seq<char>, Seq<char>)>,
    pub table: Option<TableV>,
    pub task_marker: Option<usize>,
}

pub open spec fn opt_table_view(t: Option<TableRow>) -> Option<TableV> {
    match t {
        Some(t) => Some(t@),
        None => None,
    }
}

impl View for RenderedLine {
    type V = LineV;

    open spec fn view(&self) -> LineV {
        LineV {
            source_row: self.source_row,
            kind: self.kind,
            spans: spans_view(self.spans@),
            images: images_view(self.images@),
            table: opt_table_view(self.table),
            task_marker: self.task_marker,
        }
    }
}

pub open spec fn lines_view(v: Seq<RenderedLine>) -> Seq<LineV> {
    v.map_values(|l: RenderedLine| l@)
}

// ---------------------------------------------------------------------------
// Physical rows.

/// The number of `\n` bytes among the first `n` bytes of `b`.
pub open spec fn newlines(b: Seq<u8>, n: int) -> nat
    decreases n,
{
    if n <= 0 {
        0
    } else {
        newlines(b, n - 1) + if b[n - 1] == 10u8 {
            1nat
        } else {
            0nat
        }
    }
}

/// The row holding byte offset `offset` (offsets past the end belong to the
/// last row).
pub open spec fn row_of(b: Seq<u8>, offset: int) -> nat {
    newlines(b, if offset < b.len() {
        offset
    } else {
        b.len() as int
    })
}

/// The number of physical rows: one more than the number of line breaks.
pub open spec fn row_count(b: Seq<u8>) -> nat {
    newlines(b, b.len() as int) + 1
}

proof fn lemma_newlines_monotone(b: Seq<u8>, m: int, n: int)
    requires
        m <= n,
    ensures
        newlines(b, m) <= newlines(b, n),
    decreases n - m,
{
    if m < n {
        lemma_newlines_monotone(b, m, n - 1);
    }
}

/// The byte offsets at which rows start.
pub open spec fn starts_ok(b: Seq<u8>, st: Seq<usize>) -> bool {
    &&& st.len() >= 1
    &&& st[0] == 0
    &&& forall|k: int| 0 <= k < st.len() ==> #[trigger] newlines(b, st[k] as int) == k
    &&& forall|k: int| 0 <= k < st.len() ==> #[trigger] st[k] <= b.len()
    &&& forall|k: int| 1 <= k < st.len() ==> #[trigger] b[st[k] - 1] == 10u8 && st[k] >= 1
    &&& forall|j: int, k: int| 0 <= j < k < st.len() ==> st[j] < st[k]
}

pub(crate) fn line_starts(b: &[u8]) -> (st: Vec<usize>)
    ensures
        starts_ok(b@, st@),
        st@.len() == row_count(b@),
{
    let mut st: Vec<usize> = Vec::new();
    st.push(0);
    let mut i: usize = 0;
    while i < b.len()
        invariant
            i <= b@.len(),
            st@.len() == newlines(b@, i as int) + 1,
            st@[0] == 0,
            forall|k: int| 0 <= k < st@.len() ==> #[trigger] newlines(b@, st@[k] as int) == k,
            forall|k: int| 0 <= k < st@.len() ==> #[trigger] st@[k] <= i,
            forall|k: int| 1 <= k < st@.len() ==> #[trigger] b@[st@[k] - 1] == 10u8 && st@[k] >= 1,
            forall|j: int, k: int| 0 <= j < k < st@.len() ==> st@[j] < st@[k],
        decreases b.len() - i,
    {
        if b[i] == 10 {
            st.push(i + 1);
        }
        i += 1;
    }
    st
}

/// The row of byte offset `offset`, by binary search over the row starts.
pub(crate) fn source_row(st: &Vec<usize>, b: &[u8], offset: usize) -> (r: usize)
    requires
        starts_ok(b@, st@),
        st@.len() == row_count(b@),
    ensures
        r == row_of(b@, offset as int),
        r < st@.len(),
{
    let mut lo: usize = 0;
    let mut hi: usize = st.len();
    while hi - lo > 1
        invariant
            0 <= lo < hi <= st@.len(),
            starts_ok(b@, st@),
            st@[lo as int] <= offset,
            hi < st@.len() ==> st@[hi as int] > offset,
        decreases hi - lo,
    {
        let mid = lo + (hi - lo) / 2;
        if st[mid] <= offset {
            lo = mid;
        } else {
            hi = mid;
        }
    }
    proof {
        let m: int = if offset < b@.len() {
            offset as int
        } else {
            b@.len() as int
        };
        assert(newlines(b@, st@[lo as int] as int) == lo);
        lemma_newlines_monotone(b@, st@[lo as int] as int, m);
        if lo + 1 < st@.len() {
            let nx = st@[lo + 1] as int;
            assert(newlines(b@, nx) == lo + 1);
            assert(b@[nx - 1] == 10u8);
            assert(newlines(b@, nx) == newlines(b@, nx - 1) + 1);
            lemma_newlines_monotone(b@, m, nx - 1);
        } else {
            lemma_newlines_monotone(b@, m, b@.len() as int);
        }
    }
    lo
}

// ---------------------------------------------------------------------------
// Parser events, as the projection reads them.

/// An opening tag of a parsed Markdown element.
pub enum MdTag {
    Heading(u8),
    BlockQuote,
    /// A code block with its fence info string (empty for an indented block).
    CodeBlock(String),
    /// A list, with the number of its first item when it is ordered.
    List(Option<u64>),
    Item,
    Table(Vec<Alignment>),
    TableHead,
    TableRow,
    TableCell,
    Emphasis,
    Strong,
    Strikethrough,
    /// A link and its destination.
    Link(String),
    /// An image, its destination and its title.
    Image(String, String),
    /// Any element the projection does not style.
    Other,
}

/// The closing tag of a parsed Markdown element.
#[derive(Clone, Copy, Debug, PartialEq, Eq, Structural)]
pub enum MdTagEnd {
    Heading,
    BlockQuote,
    CodeBlock,
    List,
    Item,
    TableHead,
    TableRow,
    TableCell,
    Emphasis,
    Strong,
    Strikethrough,
    Link,
    Image,
    Other,
}

/// One event of a Markdown parse.
pub enum MdEvent {
    Start(MdTag),
    End(MdTagEnd),
    Text(String),
    Code(String),
    InlineMath(String),
    DisplayMath(String),
    Html(String),
    InlineHtml(String),
    FootnoteReference(String),
    SoftBreak,
    HardBreak,
    Rule,
    TaskListMarker(bool),
}

/// A parse event and the byte range of the source it came from.
pub struct SourceEvent {
    pub event: MdEvent,
    pub start: usize,
    pub end: usize,
}

// ---------------------------------------------------------------------------
// Inline style and span merging.

/// The inline styles open at a point of the parse.
pub struct Style {
    pub strong: usize,
    pub emphasis: usize,
    pub strike: usize,
    pub code: usize,
    pub header: usize,
    pub links: Vec<String>,
}

pub struct StyleV {
    pub strong: nat,
    pub emphasis: nat,
    pub strike: nat,
    pub code: nat,
    pub header: nat,
    pub links: Seq<Seq<char>>,
}

pub open spec fn strings_view(v: Seq<String>) -> Seq<Seq<char>> {
    v.map_values(|s: String| s@)
}

impl View for Style {
    type V = StyleV;

    open spec fn view(&self) -> StyleV {
        StyleV {
            strong: self.strong as nat,
            emphasis: self.emphasis as nat,
            strike: self.strike as nat,
            code: self.code as nat,
            header: self.header as nat,
            links: strings_view(self.links@),
        }
    }
}

/// A span of `text` in style `st`: bold in strong text and table headers,
/// linked to the innermost open link.
pub open spec fn styled(st: StyleV, text: Seq<char>) -> SpanV {
    SpanV {
        text,
        bold: st.strong > 0 || st.header > 0,
        italic: st.emphasis > 0,
        code: st.code > 0,
        strike: st.strike > 0,
        link: if st.links.len() > 0 {
            Some(st.links.last())
        } else {
            None
        },
        color: None,
    }
}

/// Appending styled text: nothing for empty text; text in the style of an
/// uncolored last span extends that span; otherwise a new span.
pub open spec fn append_spans(spans: Seq<SpanV>, st: StyleV, text: Seq<char>) -> Seq<SpanV> {
    if text.len() == 0 {
        spans
    } else {
        let s = styled(st, text);
        if spans.len() > 0 && {
            let last = spans.last();
            &&& last.bold == s.bold
            &&& last.italic == s.italic
            &&& last.code == s.code
            &&& last.strike == s.strike
            &&& last.link == s.link
            &&& last.color is None
        } {
            let last = spans.last();
            spans.update(spans.len() - 1, SpanV { text: last.text + text, ..last })
        } else {
            spans.push(s)
        }
    }
}

/// The text of spans, in order.
pub open spec fn spans_text(spans: Seq<SpanV>) -> Seq<char>
    decreases spans.len(),
{
    if spans.len() == 0 {
        Seq::empty()
    } else {
        spans_text(spans.drop_last()) + spans.last().text
    }
}

/// Appending styled text never loses or reorders text: the spans read as
/// before, followed by the text, whether it merged into the last span or
/// started a new one. Empty text changes nothing; otherwise at most one span
/// is added, every span before the last is kept, and the last one carries
/// the current style, uncolored.
pub proof fn law_appending_keeps_the_text(spans: Seq<SpanV>, st: StyleV, text: Seq<char>)
    ensures
        spans_text(append_spans(spans, st, text)) == spans_text(spans) + text,
        text.len() == 0 ==> append_spans(spans, st, text) == spans,
        spans.len() <= append_spans(spans, st, text).len() <= spans.len() + 1,
        forall|i: int| 0 <= i < spans.len() - 1 ==> #[trigger] append_spans(spans, st, text)[i] == spans[i],
        text.len() > 0 ==> {
            let last = append_spans(spans, st, text).last();
            let s = styled(st, text);
            &&& append_spans(spans, st, text).len() > 0
            &&& last.bold == s.bold && last.italic == s.italic && last.code == s.code
            &&& last.strike == s.strike && last.link == s.link && last.color is None
        },
{
    let r = append_spans(spans, st, text);
    if text.len() == 0 {
        assert(spans_text(spans) + text =~= spans_text(spans));
    } else if r.len() == spans.len() + 1 {
        assert(r.drop_last() =~= spans);
    } else {
        assert(r.drop_last() =~= spans.drop_last());
        assert(spans_text(spans.drop_last()) + (spans.last().text + text) =~= spans_text(spans) + text);
    }
}

/// `text` appended `n` times.
pub open spec fn append_repeated(spans: Seq<SpanV>, st: StyleV, text: Seq<char>, n: nat) -> Seq<
    SpanV,
>
    decreases n,
{
    if n == 0 {
        spans
    } else {
        append_spans(append_repeated(spans, st, text, (n - 1) as nat), st, text)
    }
}

fn same_link(a: &Option<String>, b: &Option<String>) -> (r: bool)
    ensures
        r == (opt_string_view(*a) == opt_string_view(*b)),
{
    match (a, b) {
        (Some(x), Some(y)) => *x == *y,
        (None, None) => true,
        _ => false,
    }
}

fn clone_opt(a: &Option<String>) -> (r: Option<String>)
    ensures
        opt_string_view(r) == opt_string_view(*a),
{
    match a {
        Some(x) => Some(x.clone()),
        None => None,
    }
}

impl Style {
    fn new() -> (s: Style)
        ensures
            s@ == (StyleV {
                strong: 0,
                emphasis: 0,
                strike: 0,
                code: 0,
                header: 0,
                links: Seq::empty(),
            }),
    {
        let s = Style { strong: 0, emphasis: 0, strike: 0, code: 0, header: 0, links: Vec::new() };
        assert(strings_view(s.links@) =~= Seq::empty());
        s
    }

    fn link(&self) -> (r: Option<String>)
        ensures
            opt_string_view(r) == styled(self@, Seq::empty()).link,
    {
        let n = self.links.len();
        if n > 0 {
            Some(self.links[n - 1].clone())
        } else {
            None
        }
    }

    fn append_spans(&self, spans: &mut Vec<Span>, text: &str)
        ensures
            spans_view(final(spans)@) == append_spans(spans_view(old(spans)@), self@, text@),
    {
        if text.is_empty() {
            return;
        }
        let bold = self.strong > 0 || self.header > 0;
        let italic = self.emphasis > 0;
        let code = self.code > 0;
        let strike = self.strike > 0;
        let link = self.link();
        let n = spans.len();
        if n > 0 {
            let same = {
                let last = &spans[n - 1];
                last.bold == bold && last.italic == italic && last.code == code && last.strike
                    == strike && same_link(&last.link, &link) && last.color.is_none()
            };
            if same {
                let ghost before = spans_view(spans@);
                let mut last = spans.pop().unwrap();
                last.text.append(text);
                spans.push(last);
                proof {
                    assert(spans_view(spans@) =~= before.update(
                        before.len() - 1,
                        SpanV { text: before.last().text + text@, ..before.last() },
                    ));
                }
                return;
            }
        }
        let ghost before = spans_view(spans@);
        spans.push(
            Span {
                text: text.to_owned(),
                bold,
                italic,
                code,
                strike,
                link,
                color: None,
            },
        );
        assert(spans_view(spans@) =~= before.push(styled(self@, text@)));
    }
}

// ---------------------------------------------------------------------------
// List items and container prefixes, on bytes.

/// The first index at or after `i` whose byte is not `c`.
pub open spec fn skip_byte(b: Seq<u8>, i: int, c: u8) -> int
    decreases b.len() - i,
{
    if 0 <= i < b.len() && b[i] == c {
        skip_byte(b, i + 1, c)
    } else {
        i
    }
}

/// The first index at or after `i` whose byte is not an ASCII digit.
pub open spec fn skip_digits(b: Seq<u8>, i: int) -> int
    decreases b.len() - i,
{
    if 0 <= i < b.len() && 48 <= b[i] <= 57 {
        skip_digits(b, i + 1)
    } else {
        i
    }
}

/// The column after a tab stop of width four.
pub open spec fn tab_column(col: int) -> int {
    col + 4 - col % 4
}

/// The column reached from `col` over the spaces and tabs from index `i`.
pub open spec fn pad_column(b: Seq<u8>, i: int, col: int) -> int
    decreases b.len() - i,
{
    if 0 <= i < b.len() && b[i] == 32u8 {
        pad_column(b, i + 1, col + 1)
    } else if 0 <= i < b.len() && b[i] == 9u8 {
        pad_column(b, i + 1, tab_column(col))
    } else {
        col
    }
}

/// The end of a list marker starting at `i`: a bullet, or digits with an
/// optional `.` or `)`.
pub open spec fn marker_end(b: Seq<u8>, i: int) -> int {
    if 0 <= i < b.len() && (b[i] == 45u8 || b[i] == 43u8 || b[i] == 42u8) {
        i + 1
    } else {
        let d = skip_digits(b, i);
        if 0 <= d < b.len() && (b[d] == 46u8 || b[d] == 41u8) {
            d + 1
        } else {
            d
        }
    }
}

/// The column at which a list item's continuation lines start, from the
/// item's source text: after the marker and its padding, or one past the
/// marker when the padding is empty or longer than four columns.
pub open spec fn item_indent(raw: Seq<u8>) -> int {
    let marker = skip_byte(raw, 0, 32u8);
    let end = marker_end(raw, marker);
    let column = pad_column(raw, end, end);
    let padding = column - end;
    if end == marker {
        0
    } else if padding == 0 || padding > 4 {
        end + 1
    } else {
        column
    }
}

proof fn lemma_skip_byte_bounds(b: Seq<u8>, i: int, c: u8)
    requires
        0 <= i <= b.len(),
    ensures
        i <= skip_byte(b, i, c) <= b.len(),
    decreases b.len() - i,
{
    if i < b.len() && b[i] == c {
        lemma_skip_byte_bounds(b, i + 1, c);
    }
}

proof fn lemma_skip_digits_bounds(b: Seq<u8>, i: int)
    requires
        0 <= i <= b.len(),
    ensures
        i <= skip_digits(b, i) <= b.len(),
    decreases b.len() - i,
{
    if i < b.len() && 48 <= b[i] <= 57 {
        lemma_skip_digits_bounds(b, i + 1);
    }
}

proof fn lemma_pad_column_bounds(b: Seq<u8>, i: int, col: int)
    requires
        0 <= i <= b.len(),
        0 <= col,
    ensures
        col <= pad_column(b, i, col) <= col + 4 * (b.len() - i),
    decreases b.len() - i,
{
    if i < b.len() && b[i] == 32u8 {
        lemma_pad_column_bounds(b, i + 1, col + 1);
    } else if i < b.len() && b[i] == 9u8 {
        lemma_pad_column_bounds(b, i + 1, tab_column(col));
    }
}

fn skip_byte_exec(b: &[u8], i: usize, c: u8) -> (r: usize)
    requires
        i <= b@.len(),
    ensures
        r == skip_byte(b@, i as int, c),
{
    let mut j = i;
    while j < b.len() && b[j] == c
        invariant
            i <= j <= b@.len(),
            skip_byte(b@, j as int, c) == skip_byte(b@, i as int, c),
        decreases b.len() - j,
    {
        j += 1;
    }
    j
}

fn pad_column_exec(b: &[u8], i: usize, col: u128) -> (r: u128)
    requires
        i <= b@.len(),
        col <= 4 * i,
        b@.len() <= usize::MAX,
    ensures
        r == pad_column(b@, i as int, col as int),
{
    let mut j = i;
    let mut c = col;
    while j < b.len() && (b[j] == 32 || b[j] == 9)
        invariant
            i <= j <= b@.len(),
            b@.len() <= usize::MAX,
            c <= 4 * j,
            pad_column(b@, j as int, c as int) == pad_column(b@, i as int, col as int),
        decreases b.len() - j,
    {
        if b[j] == 32 {
            c += 1;
        } else {
            c = c + 4 - c % 4;
        }
        j += 1;
    }
    c
}

fn item_indent_exec(raw: &[u8]) -> (r: usize)
    requires
        raw@.len() <= isize::MAX,
    ensures
        r == item_indent(raw@),
{
    let marker = skip_byte_exec(raw, 0, 32);
    proof {
        lemma_skip_byte_bounds(raw@, 0, 32u8);
    }
    let end = if marker < raw.len() && (raw[marker] == 45 || raw[marker] == 43 || raw[marker] == 42) {
        marker + 1
    } else {
        let mut d = marker;
        while d < raw.len() && 48 <= raw[d] && raw[d] <= 57
            invariant
                marker <= d <= raw@.len(),
                skip_digits(raw@, d as int) == skip_digits(raw@, marker as int),
            decreases raw.len() - d,
        {
            d += 1;
        }
        if d < raw.len() && (raw[d] == 46 || raw[d] == 41) {
            d + 1
        } else {
            d
        }
    };
    assert(end == marker_end(raw@, marker as int));
    let column = pad_column_exec(raw, end, end as u128);
    proof {
        lemma_pad_column_bounds(raw@, end as int, end as int);
    }
    let padding = column - end as u128;
    if end == marker {
        0
    } else if padding == 0 || padding > 4 {
        end + 1
    } else {
        column as usize
    }
}

/// What encloses a line of a code span: a block quote, or a list item with
/// its continuation indent.
#[derive(Clone, Copy, Debug, PartialEq, Eq, Structural)]
pub enum Container {
    Quote,
    Item(usize),
}

/// A line with one block-quote marker removed: up to three spaces, `>`, and
/// one following space or tab. Lines without the marker are kept.
pub open spec fn strip_quote(t: Seq<u8>) -> Seq<u8> {
    let lead = skip_byte(t, 0, 32u8);
    let spaces = if lead < 3 {
        lead
    } else {
        3
    };
    if spaces < t.len() && t[spaces] == 62u8 {
        let rest = t.subrange(spaces + 1, t.len() as int);
        if rest.len() > 0 && (rest[0] == 32u8 || rest[0] == 9u8) {
            rest.subrange(1, rest.len() as int)
        } else {
            rest
        }
    } else {
        t
    }
}

/// The end of the indentation, up to column `indent`, that starts at `i`
/// in column `col`.
pub open spec fn indent_end(t: Seq<u8>, indent: int, i: int, col: int) -> int
    decreases t.len() - i,
{
    if 0 <= i < t.len() && col < indent && t[i] == 32u8 {
        indent_end(t, indent, i + 1, col + 1)
    } else if 0 <= i < t.len() && col < indent && t[i] == 9u8 {
        indent_end(t, indent, i + 1, tab_column(col))
    } else {
        i
    }
}

/// A line with the leading indentation of a list item removed.
pub open spec fn strip_item(t: Seq<u8>, indent: int) -> Seq<u8> {
    t.subrange(indent_end(t, indent, 0, 0), t.len() as int)
}

/// A continuation line of a code span with each enclosing container's
/// prefix removed, outermost first.
pub open spec fn strip_containers(t: Seq<u8>, cs: Seq<Container>) -> Seq<u8>
    decreases cs.len(),
{
    if cs.len() == 0 {
        t
    } else {
        let inner = strip_containers(t, cs.drop_last());
        match cs.last() {
            Container::Quote => strip_quote(inner),
            Container::Item(indent) => strip_item(inner, indent as int),
        }
    }
}

proof fn lemma_indent_end_bounds(t: Seq<u8>, indent: int, i: int, col: int)
    requires
        0 <= i <= t.len(),
    ensures
        i <= indent_end(t, indent, i, col) <= t.len(),
    decreases t.len() - i,
{
    if i < t.len() && col < indent && t[i] == 32u8 {
        lemma_indent_end_bounds(t, indent, i + 1, col + 1);
    } else if i < t.len() && col < indent && t[i] == 9u8 {
        lemma_indent_end_bounds(t, indent, i + 1, tab_column(col));
    }
}

fn slice_vec(b: &[u8], from: usize, to: usize) -> (r: Vec<u8>)
    requires
        from <= to <= b@.len(),
    ensures
        r@ == b@.subrange(from as int, to as int),
{
    let mut r: Vec<u8> = Vec::new();
    let mut i = from;
    while i < to
        invariant
            from <= i <= to <= b@.len(),
            r@ == b@.subrange(from as int, i as int),
        decreases to - i,
    {
        r.push(b[i]);
        i += 1;
    }
    r
}

fn strip_quote_exec(t: Vec<u8>) -> (r: Vec<u8>)
    ensures
        r@ == strip_quote(t@),
{
    let lead = skip_byte_exec(t.as_slice(), 0, 32);
    let spaces = if lead < 3 {
        lead
    } else {
        3
    };
    if spaces < t.len() && t[spaces] == 62 {
        let mut from = spaces + 1;
        if from < t.len() && (t[from] == 32 || t[from] == 9) {
            from = from + 1;
        }
        let r = slice_vec(t.as_slice(), from, t.len());
        proof {
            let rest = t@.subrange(spaces + 1, t@.len() as int);
            if rest.len() > 0 && (rest[0] == 32u8 || rest[0] == 9u8) {
                assert(rest.subrange(1, rest.len() as int) =~= r@);
            } else {
                assert(rest =~= r@);
            }
        }
        r
    } else {
        t
    }
}

fn strip_item_exec(t: Vec<u8>, indent: usize) -> (r: Vec<u8>)
    ensures
        r@ == strip_item(t@, indent as int),
{
    let mut i: usize = 0;
    let mut col: usize = 0;
    while i < t.len() && col < indent && (t[i] == 32 || t[i] == 9)
        invariant
            i <= t@.len(),
            col <= indent,
            indent_end(t@, indent as int, i as int, col as int) == indent_end(t@, indent as int, 0, 0),
        decreases t.len() - i,
    {
        if t[i] == 32 {
            col += 1;
        } else if indent - col < 4 - col % 4 {
            // A tab past the indent ends the indentation after it.
            proof {
                assert(indent_end(t@, indent as int, i + 1, tab_column(col as int)) == i + 1);
            }
            return slice_vec(t.as_slice(), i + 1, t.len());
        } else {
            col = col + (4 - col % 4);
        }
        i += 1;
    }
    slice_vec(t.as_slice(), i, t.len())
}

fn strip_containers_exec(t: Vec<u8>, cs: &Vec<Container>) -> (r: Vec<u8>)
    ensures
        r@ == strip_containers(t@, cs@),
{
    let mut r = t;
    let mut k: usize = 0;
    while k < cs.len()
        invariant
            k <= cs@.len(),
            r@ == strip_containers(t@, cs@.take(k as int)),
        decreases cs.len() - k,
    {
        assert(cs@.take(k + 1).drop_last() =~= cs@.take(k as int));
        r = match cs[k] {
            Container::Quote => strip_quote_exec(r),
            Container::Item(indent) => strip_item_exec(r, indent),
        };
        k += 1;
    }
    assert(cs@.take(cs@.len() as int) =~= cs@);
    r
}

// ---------------------------------------------------------------------------
// Splitting text into physical lines.

/// `s` split at every `\n` (one more piece than there are breaks).
pub open spec fn pieces(s: Seq<char>) -> Seq<Seq<char>>
    decreases s.len(),
{
    if s.len() == 0 {
        seq![Seq::empty()]
    } else {
        let rest = pieces(s.drop_last());
        if s.last() == '\n' {
            rest.push(Seq::empty())
        } else {
            rest.update(rest.len() - 1, rest.last().push(s.last()))
        }
    }
}

pub proof fn lemma_pieces_len(s: Seq<char>)
    ensures
        pieces(s).len() >= 1,
    decreases s.len(),
{
    if s.len() > 0 {
        lemma_pieces_len(s.drop_last());
    }
}

/// `b` split at every `\n` byte.
pub open spec fn byte_pieces(b: Seq<u8>) -> Seq<Seq<u8>>
    decreases b.len(),
{
    if b.len() == 0 {
        seq![Seq::empty()]
    } else {
        let rest = byte_pieces(b.drop_last());
        if b.last() == 10u8 {
            rest.push(Seq::empty())
        } else {
            rest.update(rest.len() - 1, rest.last().push(b.last()))
        }
    }
}

/// `s` split after every `\n`, each piece keeping its break; no empty pieces.
pub open spec fn inclusive_pieces(s: Seq<char>) -> Seq<Seq<char>>
    decreases s.len(),
{
    if s.len() == 0 {
        Seq::empty()
    } else {
        let rest = inclusive_pieces(s.drop_last());
        if rest.len() == 0 || rest.last().last() == '\n' {
            rest.push(seq![s.last()])
        } else {
            rest.update(rest.len() - 1, rest.last().push(s.last()))
        }
    }
}

/// A piece without the `\r` of a `\r\n` break.
pub open spec fn strip_cr(p: Seq<char>) -> Seq<char> {
    if p.len() > 0 && p.last() == '\r' {
        p.drop_last()
    } else {
        p
    }
}

/// The first whitespace-separated word of `s`, or nothing.
pub open spec fn first_word(s: Seq<char>) -> Seq<char>
    decreases s.len(),
{
    if s.len() == 0 {
        s
    } else if is_unicode_whitespace(s[0]) {
        first_word(s.subrange(1, s.len() as int))
    } else {
        word_prefix(s)
    }
}

/// The longest prefix of `s` without whitespace.
pub open spec fn word_prefix(s: Seq<char>) -> Seq<char>
    decreases s.len(),
{
    if s.len() == 0 || is_unicode_whitespace(s[0]) {
        Seq::empty()
    } else {
        seq![s[0]] + word_prefix(s.subrange(1, s.len() as int))
    }
}

/// The bytes `b[start..end]`, with the range clamped to `b`.
pub open spec fn clamped(b: Seq<u8>, start: int, end: int) -> Seq<u8> {
    let s = if start < b.len() {
        start
    } else {
        b.len() as int
    };
    let e = if end < s {
        s
    } else if end < b.len() {
        end
    } else {
        b.len() as int
    };
    b.subrange(s, e)
}

/// The text of UTF-8 bytes, or nothing for invalid bytes.
pub open spec fn decoded(b: Seq<u8>) -> Seq<char> {
    if valid_utf8(b) {
        decode_utf8(b)
    } else {
        Seq::empty()
    }
}

// ---------------------------------------------------------------------------
// Highlighting.

/// `syntect` highlighting of the lines of a code block whose fence names
/// `token` (plain text for unknown tokens), in the theme named `theme`: for
/// each line, its regions as text, bold, italic and foreground color.
pub uninterp spec fn highlighted(token: Seq<char>, theme: Seq<char>, lines: Seq<Seq<char>>) -> Seq<
    Seq<(Seq<char>, bool, bool, u8, u8, u8)>,
>;

/// One highlighted region of a line.
pub struct Region {
    pub text: String,
    pub bold: bool,
    pub italic: bool,
    pub red: u8,
    pub green: u8,
    pub blue: u8,
}

/// `syntect`'s `HighlightLines::highlight_line` over each line in turn, with
/// the default syntaxes (found by `token`, else plain text) and the theme named
/// `theme`; each region's style gives bold, italic and the foreground color.
/// The contract names the result; a line whose highlighting fails has none.
/// The theme must be one of the default themes: the code theme is.
#[verifier::external_body]
fn highlight_code(token: &str, theme: &str, lines: &Vec<String>) -> (r: Vec<Vec<Region>>)
    requires
        theme@ == code_theme(),
    ensures
        regions_view(r@) == highlighted(token@, theme@, strings_view(lines@)),
{
    let syntaxes = SyntaxSet::load_defaults_newlines();
    let themes = ThemeSet::load_defaults();
    let syntax = syntaxes.find_syntax_by_token(token).unwrap_or_else(|| syntaxes.find_syntax_plain_text());
    let mut h = HighlightLines::new(syntax, &themes.themes[theme]);
    lines.iter().map(|l| h.highlight_line(l, &syntaxes).unwrap_or_default().into_iter().map(|(st, f)| Region {
        text: f.to_string(),
        bold: st.font_style.contains(FontStyle::BOLD),
        italic: st.font_style.contains(FontStyle::ITALIC),
        red: st.foreground.r,
        green: st.foreground.g,
        blue: st.foreground.b,
    }).collect()).collect()
}

pub open spec fn regions_view(v: Seq<Vec<Region>>) -> Seq<Seq<(Seq<char>, bool, bool, u8, u8, u8)>> {
    v.map_values(
        |rs: Vec<Region>|
            rs@.map_values(|r: Region| (r.text@, r.bold, r.italic, r.red, r.green, r.blue)),
    )
}

pub open spec fn hex_digit(n: nat) -> char {
    if n < 10 {
        ((n + 48) as u8) as char
    } else {
        ((n + 87) as u8) as char
    }
}

/// A color as `#rrggbb` in lowercase hexadecimal.
pub open spec fn hex_color(r: u8, g: u8, b: u8) -> Seq<char> {
    seq![
        '#',
        hex_digit((r / 16) as nat),
        hex_digit((r % 16) as nat),
        hex_digit((g / 16) as nat),
        hex_digit((g % 16) as nat),
        hex_digit((b / 16) as nat),
        hex_digit((b % 16) as nat),
    ]
}

/// A region's text without the line break the highlighter was fed.
pub open spec fn region_text(t: Seq<char>) -> Seq<char> {
    let t1 = if t.len() > 0 && t.last() == '\n' {
        t.drop_last()
    } else {
        t
    };
    strip_cr(t1)
}

/// The code spans of a line's highlighted regions; empty regions are dropped.
pub open spec fn region_spans(rs: Seq<(Seq<char>, bool, bool, u8, u8, u8)>) -> Seq<SpanV>
    decreases rs.len(),
{
    if rs.len() == 0 {
        Seq::empty()
    } else {
        let prev = region_spans(rs.drop_last());
        let r = rs.last();
        let t = region_text(r.0);
        if t.len() == 0 {
            prev
        } else {
            prev.push(
                SpanV {
                    text: t,
                    bold: r.1,
                    italic: r.2,
                    code: true,
                    strike: false,
                    link: None,
                    color: Some(hex_color(r.3, r.4, r.5)),
                },
            )
        }
    }
}

// ---------------------------------------------------------------------------
// The projection, one event at a time.

/// The state of a projection between events.
pub struct ProjV {
    pub lines: Seq<LineV>,
    /// Difference arrays of block-quote and list nesting over rows.
    pub quotes: Seq<int>,
    pub lists: Seq<int>,
    pub style: StyleV,
    pub containers: Seq<Container>,
    /// For each open list, the number of its next item when it is ordered.
    pub ordinals: Seq<Option<u64>>,
    pub table_row: Option<usize>,
    pub cell: Option<(usize, usize)>,
    pub cell_index: nat,
    /// An open code block: its fence token and its lines so far, by row.
    pub code: Option<(Seq<char>, Seq<(usize, Seq<char>)>)>,
}

pub open spec fn initial_line(r: int) -> LineV {
    LineV {
        source_row: r as usize,
        kind: BlockKind::Paragraph,
        spans: Seq::empty(),
        images: Seq::empty(),
        table: None,
        task_marker: None,
    }
}

pub open spec fn initial(b: Seq<u8>) -> ProjV {
    ProjV {
        lines: Seq::new(row_count(b), |r: int| initial_line(r)),
        quotes: Seq::new(row_count(b) + 1, |r: int| 0int),
        lists: Seq::new(row_count(b) + 1, |r: int| 0int),
        style: StyleV {
            strong: 0,
            emphasis: 0,
            strike: 0,
            code: 0,
            header: 0,
            links: Seq::empty(),
        },
        containers: Seq::empty(),
        ordinals: Seq::empty(),
        table_row: None,
        cell: None,
        cell_index: 0,
        code: None,
    }
}

/// The rows an element spans: from the row of its first byte through the
/// row of its last byte.
pub open spec fn first_row(b: Seq<u8>, start: int) -> int {
    row_of(b, start) as int
}

pub open spec fn end_row(b: Seq<u8>, start: int, end: int) -> int {
    let last = if end - 1 > start {
        end - 1
    } else {
        start
    };
    row_of(b, last) as int + 1
}

pub open spec fn set_kind(lines: Seq<LineV>, from: int, to: int, kind: BlockKind) -> Seq<LineV> {
    Seq::new(
        lines.len(),
        |r: int|
            if from <= r < to {
                LineV { kind, ..lines[r] }
            } else {
                lines[r]
            },
    )
}

pub open spec fn cover(d: Seq<int>, from: int, to: int) -> Seq<int> {
    d.update(from, d[from] + 1).update(to, d.update(from, d[from] + 1)[to] - 1)
}

pub open spec fn with_spans(l: LineV, spans: Seq<SpanV>) -> LineV {
    LineV { spans, ..l }
}

/// `text` appended in style `st` to row `r`, when the row exists.
pub open spec fn append_row(lines: Seq<LineV>, r: int, st: StyleV, text: Seq<char>) -> Seq<LineV> {
    if 0 <= r < lines.len() {
        lines.update(r, with_spans(lines[r], append_spans(lines[r].spans, st, text)))
    } else {
        lines
    }
}

/// Piece `k` of `parts` appended to row `row + k`, for every piece.
pub open spec fn append_pieces(lines: Seq<LineV>, row: int, parts: Seq<Seq<char>>, st: StyleV) -> Seq<
    LineV,
>
    decreases parts.len(),
{
    if parts.len() == 0 {
        lines
    } else {
        let k = parts.len() - 1;
        append_row(append_pieces(lines, row, parts.drop_last(), st), row + k, st, strip_cr(parts[k]))
    }
}

/// Text appended to a table cell, or else split over the rows from `row`.
pub open spec fn append_text(
    lines: Seq<LineV>,
    row: int,
    text: Seq<char>,
    st: StyleV,
    cell: Option<(usize, usize)>,
) -> Seq<LineV> {
    match cell {
        Some((r, c)) => {
            if r < lines.len() && lines[r as int].table is Some && c < lines[r as int].table->0.cells.len() {
                let l = lines[r as int];
                let t = l.table->0;
                lines.update(
                    r as int,
                    LineV {
                        table: Some(
                            TableV {
                                cells: t.cells.update(c as int, append_spans(t.cells[c as int], st, text)),
                                ..t
                            },
                        ),
                        ..l
                    },
                )
            } else {
                lines
            }
        },
        None => append_pieces(lines, row, pieces(text), st),
    }
}

/// Byte pieces of a multi-line code span, appended to the rows from `row`:
/// line breaks stay physical, container prefixes are dropped from
/// continuation lines, and one padding space is trimmed at each end.
pub open spec fn code_pieces(
    lines: Seq<LineV>,
    row: int,
    parts: Seq<Seq<u8>>,
    cs: Seq<Container>,
    trim: bool,
    last: int,
    st: StyleV,
) -> Seq<LineV>
    decreases parts.len(),
{
    if parts.len() == 0 {
        lines
    } else {
        let k = parts.len() - 1;
        let p0 = parts[k];
        let p1 = if p0.len() > 0 && p0.last() == 13u8 {
            p0.drop_last()
        } else {
            p0
        };
        let p2 = if k > 0 {
            strip_containers(p1, cs)
        } else {
            p1
        };
        let p3 = if trim && k == 0 && p2.len() > 0 && p2[0] == 32u8 {
            p2.subrange(1, p2.len() as int)
        } else {
            p2
        };
        let p4 = if trim && k == last && p3.len() > 0 && p3.last() == 32u8 {
            p3.drop_last()
        } else {
            p3
        };
        append_row(code_pieces(lines, row, parts.drop_last(), cs, trim, last, st), row + k, st, decoded(p4))
    }
}

pub open spec fn is_code_space(c: u8) -> bool {
    c == 32u8 || c == 13u8 || c == 10u8
}

/// A code span whose source holds line breaks, kept on its physical rows.
pub open spec fn multiline_code(
    lines: Seq<LineV>,
    row: int,
    raw: Seq<u8>,
    cs: Seq<Container>,
    st: StyleV,
) -> Seq<LineV> {
    let body = code_body(raw);
    code_pieces(lines, row, byte_pieces(body), cs, code_trim(body), newlines(body, body.len() as int) as int, st)
}

/// A code span's source without its backtick delimiters.
pub open spec fn code_body(raw: Seq<u8>) -> Seq<u8> {
    let delimiter = skip_byte(raw, 0, 96u8);
    if raw.len() >= 2 * delimiter {
        raw.subrange(delimiter, raw.len() - delimiter)
    } else {
        Seq::empty()
    }
}

/// Whether one padding space is trimmed from each end of a code span.
pub open spec fn code_trim(body: Seq<u8>) -> bool {
    &&& body.len() > 0
    &&& is_code_space(body[0])
    &&& is_code_space(body.last())
    &&& exists|i: int| 0 <= i < body.len() && !is_code_space(#[trigger] body[i])
}

/// Highlighted code lines appended to their rows.
pub open spec fn flush_code(
    lines: Seq<LineV>,
    parts: Seq<(usize, Seq<char>)>,
    regions: Seq<Seq<(Seq<char>, bool, bool, u8, u8, u8)>>,
) -> Seq<LineV>
    decreases parts.len(),
{
    if parts.len() == 0 {
        lines
    } else {
        let k = parts.len() - 1;
        let prev = flush_code(lines, parts.drop_last(), regions);
        let r = parts[k].0 as int;
        if r < prev.len() && k < regions.len() {
            prev.update(r, with_spans(prev[r], prev[r].spans + region_spans(regions[k])))
        } else {
            prev
        }
    }
}

pub open spec fn part_texts(parts: Seq<(usize, Seq<char>)>) -> Seq<Seq<char>> {
    parts.map_values(|p: (usize, Seq<char>)| p.1)
}

/// The lines with an open code block's highlighting applied.
pub open spec fn flushed(p: ProjV) -> Seq<LineV> {
    match p.code {
        Some((token, parts)) => flush_code(
            p.lines,
            parts,
            highlighted(token, code_theme(), part_texts(parts)),
        ),
        None => p.lines,
    }
}

/// The lines of a text event inside a code block, each with its row; lines
/// past the last row are dropped.
pub open spec fn code_lines(row: int, n: int, text: Seq<char>) -> Seq<(usize, Seq<char>)> {
    let ps = inclusive_pieces(text);
    let room = if n - row > 0 {
        n - row
    } else {
        0
    };
    let count = if ps.len() < room {
        ps.len() as int
    } else {
        room
    };
    Seq::new(count as nat, |k: int| ((row + k) as usize, ps[k]))
}

/// The offset of the last line start at or before `n`.
pub open spec fn last_break(b: Seq<u8>, n: int) -> int
    decreases n,
{
    if n <= 0 {
        0
    } else if b[n - 1] == 10u8 {
        n
    } else {
        last_break(b, n - 1)
    }
}

pub open spec fn dec(n: nat) -> nat {
    if n > 0 {
        (n - 1) as nat
    } else {
        0
    }
}

pub open spec fn drop_top<A>(s: Seq<A>) -> Seq<A> {
    if s.len() > 0 {
        s.drop_last()
    } else {
        s
    }
}

pub open spec fn bullet() -> Seq<char> {
    seq!['•', ' ']
}

pub open spec fn indent_text() -> Seq<char> {
    seq![' ', ' ']
}

pub open spec fn task_text(checked: bool) -> Seq<char> {
    if checked {
        seq!['[', 'x', ']', ' ']
    } else {
        seq!['[', ' ', ']', ' ']
    }
}

/// A new list item: its container, nesting indentation, and its number or bullet.
pub open spec fn start_item(b: Seq<u8>, p: ProjV, row: int, start: int, end: int) -> ProjV {
    let indent = item_indent(clamped(b, start, end));
    let d = p.ordinals.len();
    let spans0 = append_repeated(
        p.lines[row].spans,
        p.style,
        indent_text(),
        if d > 0 {
            (d - 1) as nat
        } else {
            0
        },
    );
    let numbered = d > 0 && p.ordinals.last() is Some;
    let marker = if numbered {
        crate::text::decimal(p.ordinals.last()->0 as nat) + seq!['.', ' ']
    } else {
        bullet()
    };
    let n = p.ordinals.last()->0;
    ProjV {
        containers: p.containers.push(Container::Item(indent as usize)),
        lines: p.lines.update(row, with_spans(p.lines[row], append_spans(spans0, p.style, marker))),
        ordinals: if numbered {
            p.ordinals.update(
                d - 1,
                Some(
                    if n < u64::MAX {
                        (n + 1) as u64
                    } else {
                        n
                    },
                ),
            )
        } else {
            p.ordinals
        },
        ..p
    }
}

/// The cells of a table row, resized to `n` columns.
pub open spec fn resized(cells: Seq<Seq<SpanV>>, n: int) -> Seq<Seq<SpanV>> {
    Seq::new(n as nat, |k: int| if k < cells.len() { cells[k] } else { Seq::empty() })
}

pub open spec fn start_table_row(p: ProjV, row: int, header: bool) -> ProjV {
    let l = p.lines[row];
    ProjV {
        lines: match l.table {
            Some(t) => p.lines.update(
                row,
                LineV {
                    table: Some(
                        TableV {
                            header,
                            separator: false,
                            cells: resized(t.cells, t.alignments.len() as int),
                            ..t
                        },
                    ),
                    ..l
                },
            ),
            None => p.lines,
        },
        style: StyleV { header: p.style.header + if header { 1nat } else { 0nat }, ..p.style },
        table_row: Some(row as usize),
        cell_index: 0,
        ..p
    }
}

pub open spec fn start_table(p: ProjV, from: int, to: int, alignments: Seq<Alignment>) -> ProjV {
    ProjV {
        lines: Seq::new(
            p.lines.len(),
            |r: int|
                if from <= r < to {
                    LineV {
                        table: Some(
                            TableV {
                                start: from as usize,
                                end: to as usize,
                                header: false,
                                separator: true,
                                alignments,
                                cells: Seq::empty(),
                            },
                        ),
                        ..p.lines[r]
                    }
                } else {
                    p.lines[r]
                },
        ),
        ..p
    }
}

pub open spec fn start_tag(b: Seq<u8>, p: ProjV, tag: MdTag, row: int, start: int, end: int) -> ProjV {
    let from = first_row(b, start);
    let to = end_row(b, start, end);
    let st = p.style;
    match tag {
        MdTag::Heading(level) => ProjV {
            lines: set_kind(p.lines, from, to, BlockKind::Heading(level)),
            ..p
        },
        MdTag::BlockQuote => ProjV {
            quotes: cover(p.quotes, from, to),
            containers: p.containers.push(Container::Quote),
            ..p
        },
        MdTag::CodeBlock(info) => ProjV {
            lines: set_kind(p.lines, from, to, BlockKind::Code),
            style: StyleV { code: st.code + 1, ..st },
            code: Some((first_word(info@), Seq::empty())),
            ..p
        },
        MdTag::List(first) => ProjV {
            lists: cover(p.lists, from, to),
            ordinals: p.ordinals.push(first),
            ..p
        },
        MdTag::Item => start_item(b, p, row, start, end),
        MdTag::Emphasis => ProjV { style: StyleV { emphasis: st.emphasis + 1, ..st }, ..p },
        MdTag::Strong => ProjV { style: StyleV { strong: st.strong + 1, ..st }, ..p },
        MdTag::Strikethrough => ProjV { style: StyleV { strike: st.strike + 1, ..st }, ..p },
        MdTag::Image(url, title) => ProjV {
            lines: p.lines.update(
                row,
                LineV { images: p.lines[row].images.push((url@, title@)), ..p.lines[row] },
            ),
            style: StyleV { links: st.links.push(url@), ..st },
            ..p
        },
        MdTag::Link(url) => ProjV { style: StyleV { links: st.links.push(url@), ..st }, ..p },
        MdTag::Table(alignments) => start_table(p, from, to, alignments@),
        MdTag::TableHead => start_table_row(p, row, true),
        MdTag::TableRow => start_table_row(p, row, false),
        MdTag::TableCell => ProjV {
            cell: match p.table_row {
                Some(r) => Some((r, p.cell_index as usize)),
                None => None,
            },
            cell_index: p.cell_index + 1,
            ..p
        },
        MdTag::Other => p,
    }
}

pub open spec fn end_tag(p: ProjV, tag: MdTagEnd) -> ProjV {
    let st = p.style;
    match tag {
        MdTagEnd::CodeBlock => ProjV {
            lines: flushed(p),
            style: StyleV { code: dec(st.code), ..st },
            code: None,
            ..p
        },
        MdTagEnd::BlockQuote => ProjV { containers: drop_top(p.containers), ..p },
        MdTagEnd::Item => ProjV { containers: drop_top(p.containers), ..p },
        MdTagEnd::List => ProjV { ordinals: drop_top(p.ordinals), ..p },
        MdTagEnd::Emphasis => ProjV { style: StyleV { emphasis: dec(st.emphasis), ..st }, ..p },
        MdTagEnd::Strong => ProjV { style: StyleV { strong: dec(st.strong), ..st }, ..p },
        MdTagEnd::Strikethrough => ProjV { style: StyleV { strike: dec(st.strike), ..st }, ..p },
        MdTagEnd::Link => ProjV { style: StyleV { links: drop_top(st.links), ..st }, ..p },
        MdTagEnd::Image => ProjV { style: StyleV { links: drop_top(st.links), ..st }, ..p },
        MdTagEnd::TableCell => ProjV { cell: None, ..p },
        MdTagEnd::TableHead => ProjV {
            style: StyleV { header: dec(st.header), ..st },
            table_row: None,
            ..p
        },
        MdTagEnd::TableRow => ProjV { table_row: None, ..p },
        MdTagEnd::Heading => p,
        MdTagEnd::Other => p,
    }
}

/// Text outside code blocks is styled onto its rows; inside one it is kept
/// for highlighting.
pub open spec fn text_event(p: ProjV, row: int, text: Seq<char>) -> ProjV {
    match p.code {
        Some((token, parts)) => ProjV {
            code: Some((token, parts + code_lines(row, p.lines.len() as int, text))),
            ..p
        },
        None => ProjV { lines: append_text(p.lines, row, text, p.style, p.cell), ..p },
    }
}

/// An inline code span: in code style, kept on its physical rows when its
/// source spans several.
pub open spec fn code_event(b: Seq<u8>, p: ProjV, row: int, text: Seq<char>, start: int, end: int) -> ProjV {
    let st = StyleV { code: p.style.code + 1, ..p.style };
    let raw = clamped(b, start, end);
    ProjV {
        lines: if p.cell is Some {
            append_text(p.lines, row, text, st, p.cell)
        } else if raw.contains(10u8) {
            multiline_code(p.lines, row, raw, p.containers, st)
        } else {
            append_row(p.lines, row, st, text)
        },
        ..p
    }
}

/// One parse event applied to the projection.
#[verifier::opaque]
pub open spec fn step(b: Seq<u8>, p: ProjV, e: SourceEvent) -> ProjV {
    let start = e.start as int;
    let end = e.end as int;
    let row = row_of(b, start) as int;
    match e.event {
        MdEvent::Start(tag) => start_tag(b, p, tag, row, start, end),
        MdEvent::End(tag) => end_tag(p, tag),
        MdEvent::Text(t) => text_event(p, row, t@),
        MdEvent::Html(t) => text_event(p, row, t@),
        MdEvent::InlineHtml(t) => text_event(p, row, t@),
        MdEvent::Code(t) => code_event(b, p, row, t@, start, end),
        MdEvent::Rule => ProjV {
            lines: p.lines.update(row, LineV { kind: BlockKind::Rule, ..p.lines[row] }),
            ..p
        },
        MdEvent::TaskListMarker(checked) => ProjV {
            lines: append_row(
                p.lines.update(
                    row,
                    LineV {
                        task_marker: Some(
                            (start - last_break(b, if start < b.len() { start } else { b.len() as int })) as usize,
                        ),
                        ..p.lines[row]
                    },
                ),
                row,
                p.style,
                task_text(checked),
            ),
            ..p
        },
        MdEvent::SoftBreak => p,
        MdEvent::HardBreak => p,
        MdEvent::InlineMath(t) => ProjV { lines: append_text(p.lines, row, t@, p.style, p.cell), ..p },
        MdEvent::DisplayMath(t) => ProjV { lines: append_text(p.lines, row, t@, p.style, p.cell), ..p },
        MdEvent::FootnoteReference(t) => ProjV {
            lines: append_text(p.lines, row, t@, p.style, p.cell),
            ..p
        },
    }
}

/// The projection after the first `n` events.
pub open spec fn fold_events(b: Seq<u8>, events: Seq<SourceEvent>, n: int) -> ProjV
    decreases n,
{
    if n <= 0 {
        initial(b)
    } else {
        step(b, fold_events(b, events, n - 1), events[n - 1])
    }
}

/// The sum of the first `n` entries of a difference array.
pub open spec fn prefix_sum(d: Seq<int>, n: int) -> int
    decreases n,
{
    if n <= 0 {
        0
    } else {
        prefix_sum(d, n - 1) + d[n - 1]
    }
}

/// Paragraph rows inside a list are list rows, else inside a quote quote rows.
pub open spec fn classify(lines: Seq<LineV>, quotes: Seq<int>, lists: Seq<int>) -> Seq<LineV> {
    Seq::new(
        lines.len(),
        |r: int|
            if lines[r].kind == BlockKind::Paragraph {
                LineV {
                    kind: if prefix_sum(lists, r + 1) > 0 {
                        BlockKind::List
                    } else if prefix_sum(quotes, r + 1) > 0 {
                        BlockKind::Quote
                    } else {
                        BlockKind::Paragraph
                    },
                    ..lines[r]
                }
            } else {
                lines[r]
            },
    )
}

/// Every table row lies within the rows its table spans.
pub open spec fn rows_in_tables(lines: Seq<LineV>) -> bool {
    forall|r: int|
        0 <= r < lines.len() ==> match (#[trigger] lines[r]).table {
            Some(t) => t.start <= r < t.end,
            None => true,
        }
}

proof fn lemma_newlines_at_most(b: Seq<u8>, n: int)
    ensures
        newlines(b, n) <= if n > 0 { n } else { 0 },
    decreases n,
{
    if n > 0 {
        lemma_newlines_at_most(b, n - 1);
    }
}

/// The same rows with the same tables.
pub open spec fn same_tables(a: Seq<LineV>, b: Seq<LineV>) -> bool {
    &&& a.len() == b.len()
    &&& forall|r: int| 0 <= r < a.len() ==> (#[trigger] a[r]).table == b[r].table
}

proof fn lemma_append_pieces_tables(lines: Seq<LineV>, row: int, parts: Seq<Seq<char>>, st: StyleV)
    ensures
        same_tables(append_pieces(lines, row, parts, st), lines),
    decreases parts.len(),
{
    if parts.len() > 0 {
        lemma_append_pieces_tables(lines, row, parts.drop_last(), st);
    }
}

proof fn lemma_code_pieces_tables(
    lines: Seq<LineV>,
    row: int,
    parts: Seq<Seq<u8>>,
    cs: Seq<Container>,
    trim: bool,
    last: int,
    st: StyleV,
)
    ensures
        same_tables(code_pieces(lines, row, parts, cs, trim, last, st), lines),
    decreases parts.len(),
{
    if parts.len() > 0 {
        lemma_code_pieces_tables(lines, row, parts.drop_last(), cs, trim, last, st);
    }
}

proof fn lemma_append_text_tables(
    lines: Seq<LineV>,
    row: int,
    text: Seq<char>,
    st: StyleV,
    cell: Option<(usize, usize)>,
)
    requires
        rows_in_tables(lines),
    ensures
        rows_in_tables(append_text(lines, row, text, st, cell)),
        append_text(lines, row, text, st, cell).len() == lines.len(),
{
    match cell {
        Some((r, c)) => {
            let q = append_text(lines, row, text, st, cell);
            assert forall|k: int| 0 <= k < q.len() implies match (#[trigger] q[k]).table {
                Some(t) => t.start <= k < t.end,
                None => true,
            } by {
                assert(lines[k].table matches Some(t) ==> t.start <= k < t.end);
            }
        },
        None => lemma_append_pieces_tables(lines, row, pieces(text), st),
    }
}

proof fn lemma_step_rows_in_tables(b: Seq<u8>, p: ProjV, e: SourceEvent)
    requires
        rows_in_tables(p.lines),
        p.lines.len() == row_count(b),
        b.len() <= isize::MAX,
    ensures
        rows_in_tables(step(b, p, e).lines),
        step(b, p, e).lines.len() == row_count(b),
{
    reveal(step);
    let start = e.start as int;
    let end = e.end as int;
    let row = row_of(b, start) as int;
    let last = if end - 1 > start { end - 1 } else { start };
    lemma_newlines_at_most(b, b.len() as int);
    lemma_newlines_monotone(b, if last < b.len() { last } else { b.len() as int }, b.len() as int);
    lemma_newlines_monotone(b, if start < b.len() { start } else { b.len() as int }, b.len() as int);
    assert(0 <= row < p.lines.len());
    match e.event {
        MdEvent::End(tag) => {
            match tag {
                MdTagEnd::CodeBlock => {
                    match p.code {
                        Some((token, parts)) => lemma_flush_rows_in_tables(
                            p.lines,
                            parts,
                            highlighted(token, code_theme(), part_texts(parts)),
                        ),
                        None => {},
                    }
                },
                _ => {},
            }
        },
        MdEvent::Text(t) => {
            if p.code is None {
                lemma_append_text_tables(p.lines, row, t@, p.style, p.cell);
            }
        },
        MdEvent::Html(t) => {
            if p.code is None {
                lemma_append_text_tables(p.lines, row, t@, p.style, p.cell);
            }
        },
        MdEvent::InlineHtml(t) => {
            if p.code is None {
                lemma_append_text_tables(p.lines, row, t@, p.style, p.cell);
            }
        },
        MdEvent::Code(t) => {
            let st = StyleV { code: p.style.code + 1, ..p.style };
            let raw = clamped(b, start, end);
            if p.cell is Some {
                lemma_append_text_tables(p.lines, row, t@, st, p.cell);
            } else if raw.contains(10u8) {
                let body = code_body(raw);
                lemma_code_pieces_tables(
                    p.lines,
                    row,
                    byte_pieces(body),
                    p.containers,
                    code_trim(body),
                    newlines(body, body.len() as int) as int,
                    st,
                );
            }
        },
        MdEvent::InlineMath(t) => lemma_append_text_tables(p.lines, row, t@, p.style, p.cell),
        MdEvent::DisplayMath(t) => lemma_append_text_tables(p.lines, row, t@, p.style, p.cell),
        MdEvent::FootnoteReference(t) => lemma_append_text_tables(p.lines, row, t@, p.style, p.cell),
        _ => {},
    }
}

proof fn lemma_fold_rows_in_tables(b: Seq<u8>, events: Seq<SourceEvent>, n: int)
    requires
        b.len() <= isize::MAX,
    ensures
        rows_in_tables(fold_events(b, events, n).lines),
        fold_events(b, events, n).lines.len() == row_count(b),
    decreases n,
{
    if n > 0 {
        lemma_fold_rows_in_tables(b, events, n - 1);
        lemma_step_rows_in_tables(b, fold_events(b, events, n - 1), events[n - 1]);
    }
}

proof fn lemma_flush_rows_in_tables(
    lines: Seq<LineV>,
    parts: Seq<(usize, Seq<char>)>,
    regions: Seq<Seq<(Seq<char>, bool, bool, u8, u8, u8)>>,
)
    requires
        rows_in_tables(lines),
    ensures
        rows_in_tables(flush_code(lines, parts, regions)),
        flush_code(lines, parts, regions).len() == lines.len(),
    decreases parts.len(),
{
    if parts.len() > 0 {
        lemma_flush_rows_in_tables(lines, parts.drop_last(), regions);
    }
}

/// A table row's own row lies within its table: `start <= row < end`.
pub proof fn law_table_rows_lie_in_their_table(b: Seq<u8>, events: Seq<SourceEvent>)
    requires
        b.len() <= isize::MAX,
    ensures
        rows_in_tables(spec_project(b, events)),
{
    let p = fold_events(b, events, events.len() as int);
    lemma_fold_rows_in_tables(b, events, events.len() as int);
    match p.code {
        Some((token, parts)) => lemma_flush_rows_in_tables(
            p.lines,
            parts,
            highlighted(token, code_theme(), part_texts(parts)),
        ),
        None => {},
    }
    let f = flushed(p);
    let c = classify(f, p.quotes, p.lists);
    assert forall|r: int| 0 <= r < c.len() implies match (#[trigger] c[r]).table {
        Some(t) => t.start <= r < t.end,
        None => true,
    } by {
        assert(c[r].table == f[r].table);
    }
}

/// The rendered lines of `source` given its parse events.
pub open spec fn spec_project(b: Seq<u8>, events: Seq<SourceEvent>) -> Seq<LineV> {
    let p = fold_events(b, events, events.len() as int);
    classify(flushed(p), p.quotes, p.lists)
}

// ---------------------------------------------------------------------------
// Executable pieces of the projection.

/// Two line vectors with the same rows in the same places.
pub open spec fn same_rows(a: Seq<RenderedLine>, b: Seq<RenderedLine>) -> bool {
    &&& a.len() == b.len()
    &&& forall|r: int| 0 <= r < a.len() ==> #[trigger] a[r].source_row == b[r].source_row
}

fn append_row_exec(lines: &mut Vec<RenderedLine>, r: usize, st: &Style, text: &str)
    ensures
        lines_view(final(lines)@) == append_row(lines_view(old(lines)@), r as int, st@, text@),
        final(lines)@.len() == old(lines)@.len(),
        same_rows(final(lines)@, old(lines)@),
{
    if r < lines.len() {
        let ghost old_v = lines_view(lines@);
        st.append_spans(&mut lines[r].spans, text);
        assert(lines_view(lines@) =~= append_row(old_v, r as int, st@, text@));
    }
}

pub(crate) fn pieces_exec(text: &str) -> (r: Vec<String>)
    ensures
        strings_view(r@) == pieces(text@),
{
    let cs = chars_vec(text);
    let mut done: Vec<String> = Vec::new();
    let mut cur = String::new();
    let mut i: usize = 0;
    while i < cs.len()
        invariant
            i <= cs@.len(),
            cs@ == text@,
            strings_view(done@).push(cur@) == pieces(cs@.take(i as int)),
        decreases cs.len() - i,
    {
        let ghost before = strings_view(done@).push(cur@);
        assert(cs@.take(i + 1).drop_last() =~= cs@.take(i as int));
        if cs[i] == '\n' {
            done.push(cur);
            cur = String::new();
            assert(strings_view(done@).push(cur@) =~= before.push(Seq::empty()));
        } else {
            push_char(&mut cur, cs[i]);
            assert(strings_view(done@).push(cur@) =~= before.update(
                before.len() - 1,
                before.last().push(cs@[i as int]),
            ));
        }
        i += 1;
    }
    assert(cs@.take(cs@.len() as int) =~= cs@);
    done.push(cur);
    done
}

fn inclusive_pieces_exec(text: &str) -> (r: Vec<String>)
    ensures
        strings_view(r@) == inclusive_pieces(text@),
{
    let cs = chars_vec(text);
    let mut done: Vec<String> = Vec::new();
    let mut i: usize = 0;
    while i < cs.len()
        invariant
            i <= cs@.len(),
            cs@ == text@,
            strings_view(done@) == inclusive_pieces(cs@.take(i as int)),
        decreases cs.len() - i,
    {
        let ghost before = strings_view(done@);
        assert(cs@.take(i + 1).drop_last() =~= cs@.take(i as int));
        let n = done.len();
        let open_piece = n > 0 && {
            let last = done[n - 1].as_str();
            let m = last.unicode_len();
            m > 0 && last.get_char(m - 1) != '\n'
        };
        if open_piece {
            let mut last = done.pop().unwrap();
            push_char(&mut last, cs[i]);
            done.push(last);
            assert(strings_view(done@) =~= before.update(
                before.len() - 1,
                before.last().push(cs@[i as int]),
            ));
        } else {
            let mut piece = String::new();
            push_char(&mut piece, cs[i]);
            done.push(piece);
            assert(strings_view(done@) =~= before.push(seq![cs@[i as int]]));
        }
        i += 1;
    }
    assert(cs@.take(cs@.len() as int) =~= cs@);
    done
}

proof fn lemma_inclusive_pieces_nonempty(s: Seq<char>, k: int)
    requires
        0 <= k < inclusive_pieces(s).len(),
    ensures
        inclusive_pieces(s)[k].len() > 0,
    decreases s.len(),
{
    if s.len() > 0 {
        let rest = inclusive_pieces(s.drop_last());
        if k < rest.len() {
            lemma_inclusive_pieces_nonempty(s.drop_last(), k);
        }
    }
}

pub(crate) fn strip_cr_exec(p: &str) -> (r: String)
    ensures
        r@ == strip_cr(p@),
{
    let n = p.unicode_len();
    if n > 0 && p.get_char(n - 1) == '\r' {
        p.substring_char(0, n - 1).to_owned()
    } else {
        p.to_owned()
    }
}

fn first_word_exec(s: &str) -> (r: String)
    ensures
        r@ == first_word(s@),
{
    let cs = chars_vec(s);
    let mut i: usize = 0;
    assert(cs@.subrange(0, cs@.len() as int) =~= s@);
    while i < cs.len() && is_whitespace(cs[i])
        invariant
            i <= cs@.len(),
            cs@ == s@,
            first_word(cs@.subrange(i as int, cs@.len() as int)) == first_word(s@),
        decreases cs.len() - i,
    {
        assert(cs@.subrange(i as int, cs@.len() as int).subrange(1, cs@.len() - i) =~= cs@.subrange(
            i + 1,
            cs@.len() as int,
        ));
        i += 1;
    }
    let mut j = i;
    while j < cs.len() && !is_whitespace(cs[j])
        invariant
            i <= j <= cs@.len(),
            word_prefix(cs@.subrange(i as int, cs@.len() as int)) == cs@.subrange(i as int, j as int)
                + word_prefix(cs@.subrange(j as int, cs@.len() as int)),
        decreases cs.len() - j,
    {
        let ghost rest = cs@.subrange(j as int, cs@.len() as int);
        assert(rest.subrange(1, rest.len() as int) =~= cs@.subrange(j + 1, cs@.len() as int));
        assert(cs@.subrange(i as int, j + 1) =~= cs@.subrange(i as int, j as int) + seq![cs@[j as int]]);
        j += 1;
    }
    assert(word_prefix(cs@.subrange(j as int, cs@.len() as int)) =~= Seq::<char>::empty());
    assert(cs@.subrange(i as int, j as int) + Seq::<char>::empty() =~= cs@.subrange(i as int, j as int));
    s.substring_char(i, j).to_owned()
}

fn append_pieces_exec(lines: &mut Vec<RenderedLine>, row: usize, text: &str, st: &Style)
    ensures
        lines_view(final(lines)@) == append_pieces(lines_view(old(lines)@), row as int, pieces(text@), st@),
        same_rows(final(lines)@, old(lines)@),
{
    let ps = pieces_exec(text);
    let ghost parts = strings_view(ps@);
    let ghost l0 = lines_view(lines@);
    let mut k: usize = 0;
    while k < ps.len()
        invariant
            k <= ps@.len(),
            parts == strings_view(ps@),
            lines_view(lines@) == append_pieces(l0, row as int, parts.take(k as int), st@),
            lines@.len() == l0.len(),
            same_rows(lines@, old(lines)@),
        decreases ps.len() - k,
    {
        assert(parts.take(k + 1).drop_last() =~= parts.take(k as int));
        let piece = strip_cr_exec(ps[k].as_str());
        if row < lines.len() && k < lines.len() - row {
            append_row_exec(lines, row + k, st, piece.as_str());
        }
        k += 1;
    }
    assert(parts.take(ps@.len() as int) =~= parts);
}

fn append_text_exec(
    lines: &mut Vec<RenderedLine>,
    row: usize,
    text: &str,
    st: &Style,
    cell: Option<(usize, usize)>,
)
    ensures
        lines_view(final(lines)@) == append_text(lines_view(old(lines)@), row as int, text@, st@, cell),
        same_rows(final(lines)@, old(lines)@),
{
    match cell {
        Some((r, c)) => {
            if r < lines.len() {
                let ghost old_v = lines_view(lines@);
                let tab = lines[r].table.take();
                if let Some(mut t) = tab {
                    if c < t.cells.len() {
                        let ghost cells0 = cells_view(t.cells@);
                        st.append_spans(&mut t.cells[c], text);
                        assert(cells_view(t.cells@) =~= cells0.update(
                            c as int,
                            append_spans(cells0[c as int], st@, text@),
                        ));
                    }
                    lines[r].table = Some(t);
                }
                assert(lines_view(lines@) =~= append_text(old_v, row as int, text@, st@, cell));
            }
        },
        None => {
            append_pieces_exec(lines, row, text, st);
        },
    }
}

fn byte_pieces_exec(b: &[u8]) -> (r: Vec<Vec<u8>>)
    ensures
        r@.map_values(|v: Vec<u8>| v@) == byte_pieces(b@),
{
    let mut done: Vec<Vec<u8>> = Vec::new();
    let mut cur: Vec<u8> = Vec::new();
    let mut i: usize = 0;
    while i < b.len()
        invariant
            i <= b@.len(),
            done@.map_values(|v: Vec<u8>| v@).push(cur@) == byte_pieces(b@.take(i as int)),
        decreases b.len() - i,
    {
        let ghost before = done@.map_values(|v: Vec<u8>| v@).push(cur@);
        assert(b@.take(i + 1).drop_last() =~= b@.take(i as int));
        if b[i] == 10 {
            done.push(cur);
            cur = Vec::new();
            assert(done@.map_values(|v: Vec<u8>| v@).push(cur@) =~= before.push(Seq::empty()));
        } else {
            cur.push(b[i]);
            assert(done@.map_values(|v: Vec<u8>| v@).push(cur@) =~= before.update(
                before.len() - 1,
                before.last().push(b@[i as int]),
            ));
        }
        i += 1;
    }
    assert(b@.take(b@.len() as int) =~= b@);
    done.push(cur);
    done
}

fn decoded_exec(b: Vec<u8>) -> (r: String)
    ensures
        r@ == decoded(b@),
{
    match string_from_utf8(b) {
        Some(s) => s,
        None => String::new(),
    }
}

fn drop_last_byte(v: Vec<u8>) -> (r: Vec<u8>)
    requires
        v@.len() > 0,
    ensures
        r@ == v@.drop_last(),
{
    let mut v = v;
    v.pop();
    v
}

fn code_piece(part: Vec<u8>, k: usize, cs: &Vec<Container>, trim: bool, last: usize) -> (r: String)
    ensures
        r@ == {
            let p0 = part@;
            let p1 = if p0.len() > 0 && p0.last() == 13u8 {
                p0.drop_last()
            } else {
                p0
            };
            let p2 = if k > 0 {
                strip_containers(p1, cs@)
            } else {
                p1
            };
            let p3 = if trim && k == 0 && p2.len() > 0 && p2[0] == 32u8 {
                p2.subrange(1, p2.len() as int)
            } else {
                p2
            };
            let p4 = if trim && k == last && p3.len() > 0 && p3.last() == 32u8 {
                p3.drop_last()
            } else {
                p3
            };
            decoded(p4)
        },
{
    let n = part.len();
    let p1 = if n > 0 && part[n - 1] == 13 {
        drop_last_byte(part)
    } else {
        part
    };
    let p2 = if k > 0 {
        strip_containers_exec(p1, cs)
    } else {
        p1
    };
    let p3 = if trim && k == 0 && p2.len() > 0 && p2[0] == 32 {
        slice_vec(p2.as_slice(), 1, p2.len())
    } else {
        p2
    };
    let m = p3.len();
    let p4 = if trim && k == last && m > 0 && p3[m - 1] == 32 {
        drop_last_byte(p3)
    } else {
        p3
    };
    decoded_exec(p4)
}

fn count_newlines(b: &[u8]) -> (r: usize)
    ensures
        r == newlines(b@, b@.len() as int),
{
    let mut n: usize = 0;
    let mut i: usize = 0;
    while i < b.len()
        invariant
            i <= b@.len(),
            n == newlines(b@, i as int),
            n <= i,
        decreases b.len() - i,
    {
        if b[i] == 10 {
            n += 1;
        }
        i += 1;
    }
    n
}

fn multiline_code_exec(
    lines: &mut Vec<RenderedLine>,
    row: usize,
    raw: &[u8],
    cs: &Vec<Container>,
    st: &Style,
)
    ensures
        lines_view(final(lines)@) == multiline_code(lines_view(old(lines)@), row as int, raw@, cs@, st@),
        final(lines)@.len() == old(lines)@.len(),
        same_rows(final(lines)@, old(lines)@),
{
    let delimiter = skip_byte_exec(raw, 0, 96);
    proof {
        lemma_skip_byte_bounds(raw@, 0, 96u8);
    }
    let body = if raw.len() / 2 >= delimiter {
        slice_vec(raw, delimiter, raw.len() - delimiter)
    } else {
        Vec::new()
    };
    assert(body@ == code_body(raw@));
    let bl = body.len();
    let mut trim = bl > 0 && (body[0] == 32 || body[0] == 13 || body[0] == 10) && (body[bl - 1] == 32
        || body[bl - 1] == 13 || body[bl - 1] == 10);
    if trim {
        let mut j: usize = 0;
        while j < bl && (body[j] == 32 || body[j] == 13 || body[j] == 10)
            invariant
                j <= bl,
                bl == body@.len(),
                forall|i: int| 0 <= i < j ==> is_code_space(#[trigger] body@[i]),
            decreases bl - j,
        {
            j += 1;
        }
        trim = j < bl;
        proof {
            if j < bl {
                assert(!is_code_space(body@[j as int]));
            }
        }
    }
    assert(trim == code_trim(body@));
    let last = count_newlines(body.as_slice());
    let parts = byte_pieces_exec(body.as_slice());
    let ghost pv = parts@.map_values(|v: Vec<u8>| v@);
    let ghost l0 = lines_view(lines@);
    let mut k: usize = 0;
    while k < parts.len()
        invariant
            k <= parts@.len(),
            pv == parts@.map_values(|v: Vec<u8>| v@),
            lines_view(lines@) == code_pieces(l0, row as int, pv.take(k as int), cs@, trim, last as int, st@),
            lines@.len() == l0.len(),
            same_rows(lines@, old(lines)@),
        decreases parts.len() - k,
    {
        assert(pv.take(k + 1).drop_last() =~= pv.take(k as int));
        let part = slice_vec(parts[k].as_slice(), 0, parts[k].len());
        assert(part@ =~= pv[k as int]);
        let piece = code_piece(part, k, cs, trim, last);
        if row < lines.len() && k < lines.len() - row {
            append_row_exec(lines, row + k, st, piece.as_str());
        }
        k += 1;
    }
    assert(pv.take(parts@.len() as int) =~= pv);
    assert(lines_view(lines@) == code_pieces(l0, row as int, byte_pieces(body@), cs@, trim, last as int, st@));
    assert(lines_view(lines@) == multiline_code(l0, row as int, raw@, cs@, st@));
}

fn hex_digit_exec(n: u8) -> (c: char)
    requires
        n < 16,
    ensures
        c == hex_digit(n as nat),
{
    if n < 10 {
        (n + 48) as char
    } else {
        (n + 87) as char
    }
}

fn hex_color_exec(r: u8, g: u8, b: u8) -> (s: String)
    ensures
        s@ == hex_color(r, g, b),
{
    let mut s = String::new();
    push_char(&mut s, '#');
    push_char(&mut s, hex_digit_exec(r / 16));
    push_char(&mut s, hex_digit_exec(r % 16));
    push_char(&mut s, hex_digit_exec(g / 16));
    push_char(&mut s, hex_digit_exec(g % 16));
    push_char(&mut s, hex_digit_exec(b / 16));
    push_char(&mut s, hex_digit_exec(b % 16));
    assert(s@ =~= hex_color(r, g, b));
    s
}

fn region_text_exec(t: &str) -> (r: String)
    ensures
        r@ == region_text(t@),
{
    let n = t.unicode_len();
    if n > 0 && t.get_char(n - 1) == '\n' {
        strip_cr_exec(t.substring_char(0, n - 1))
    } else {
        strip_cr_exec(t)
    }
}

fn push_region_spans(spans: &mut Vec<Span>, rs: &Vec<Region>)
    ensures
        spans_view(final(spans)@) == spans_view(old(spans)@) + region_spans(
            rs@.map_values(|x: Region| (x.text@, x.bold, x.italic, x.red, x.green, x.blue)),
        ),
{
    let ghost rv = rs@.map_values(|x: Region| (x.text@, x.bold, x.italic, x.red, x.green, x.blue));
    let ghost s0 = spans_view(spans@);
    let mut k: usize = 0;
    assert(s0 + region_spans(rv.take(0)) =~= s0);
    while k < rs.len()
        invariant
            k <= rs@.len(),
            rv == rs@.map_values(|x: Region| (x.text@, x.bold, x.italic, x.red, x.green, x.blue)),
            spans_view(spans@) == s0 + region_spans(rv.take(k as int)),
        decreases rs.len() - k,
    {
        assert(rv.take(k + 1).drop_last() =~= rv.take(k as int));
        let x = &rs[k];
        let t = region_text_exec(x.text.as_str());
        if !t.as_str().is_empty() {
            let ghost before = spans_view(spans@);
            let span = Span {
                text: t,
                bold: x.bold,
                italic: x.italic,
                code: true,
                strike: false,
                link: None,
                color: Some(hex_color_exec(x.red, x.green, x.blue)),
            };
            let ghost sv = span@;
            spans.push(span);
            assert(spans_view(spans@) =~= before.push(sv));
            assert(s0 + region_spans(rv.take(k + 1)) =~= (s0 + region_spans(rv.take(k as int))).push(sv));
        } else {
            assert(s0 + region_spans(rv.take(k + 1)) =~= s0 + region_spans(rv.take(k as int)));
        }
        k += 1;
    }
    assert(rv.take(rs@.len() as int) =~= rv);
}

/// The name of the theme code blocks are highlighted with.
pub open spec fn code_theme() -> Seq<char> {
    "base16-ocean.dark"@
}

fn highlight_theme() -> (r: &'static str)
    ensures
        r@ == code_theme(),
{
    "base16-ocean.dark"
}

fn flush_code_exec(lines: &mut Vec<RenderedLine>, token: &String, parts: &Vec<(usize, String)>)
    ensures
        lines_view(final(lines)@) == flush_code(
            lines_view(old(lines)@),
            parts@.map_values(|p: (usize, String)| (p.0, p.1@)),
            highlighted(
                token@,
                code_theme(),
                part_texts(parts@.map_values(|p: (usize, String)| (p.0, p.1@))),
            ),
        ),
        final(lines)@.len() == old(lines)@.len(),
        same_rows(final(lines)@, old(lines)@),
{
    let ghost pv = parts@.map_values(|p: (usize, String)| (p.0, p.1@));
    let mut texts: Vec<String> = Vec::new();
    let mut k: usize = 0;
    while k < parts.len()
        invariant
            k <= parts@.len(),
            pv == parts@.map_values(|p: (usize, String)| (p.0, p.1@)),
            strings_view(texts@) == part_texts(pv).take(k as int),
        decreases parts.len() - k,
    {
        let ghost before = strings_view(texts@);
        texts.push(parts[k].1.clone());
        assert(strings_view(texts@) =~= before.push(pv[k as int].1));
        assert(part_texts(pv).take(k + 1) =~= part_texts(pv).take(k as int).push(pv[k as int].1));
        k += 1;
    }
    assert(part_texts(pv).take(parts@.len() as int) =~= part_texts(pv));
    let regions = highlight_code(token.as_str(), highlight_theme(), &texts);
    let ghost rg = regions_view(regions@);
    let ghost l0 = lines_view(lines@);
    let mut k: usize = 0;
    while k < parts.len()
        invariant
            k <= parts@.len(),
            pv == parts@.map_values(|p: (usize, String)| (p.0, p.1@)),
            rg == regions_view(regions@),
            lines_view(lines@) == flush_code(l0, pv.take(k as int), rg),
            lines@.len() == l0.len(),
            same_rows(lines@, old(lines)@),
        decreases parts.len() - k,
    {
        assert(pv.take(k + 1).drop_last() =~= pv.take(k as int));
        let r = parts[k].0;
        if r < lines.len() && k < regions.len() {
            let ghost before = lines_view(lines@);
            push_region_spans(&mut lines[r].spans, &regions[k]);
            assert(lines_view(lines@) =~= before.update(
                r as int,
                with_spans(before[r as int], before[r as int].spans + region_spans(rg[k as int])),
            ));
        }
        k += 1;
    }
    assert(pv.take(parts@.len() as int) =~= pv);
}

// ---------------------------------------------------------------------------
// Nesting depths.

/// The sum of the magnitudes of the first `n` entries of a difference array.
pub open spec fn mass(d: Seq<int>, n: int) -> int
    decreases n,
{
    if n <= 0 {
        0
    } else {
        mass(d, n - 1) + if d[n - 1] >= 0 {
            d[n - 1]
        } else {
            -d[n - 1]
        }
    }
}

proof fn lemma_mass_nonneg(d: Seq<int>, n: int)
    ensures
        0 <= mass(d, n),
    decreases n,
{
    if n > 0 {
        lemma_mass_nonneg(d, n - 1);
    }
}

proof fn lemma_mass_monotone(d: Seq<int>, m: int, n: int)
    requires
        0 <= m <= n,
    ensures
        0 <= mass(d, m) <= mass(d, n),
    decreases n - m,
{
    lemma_mass_nonneg(d, m);
    if m < n {
        lemma_mass_monotone(d, m, n - 1);
    }
}

proof fn lemma_mass_prefix(d: Seq<int>, j: int, v: int, n: int)
    requires
        0 <= j < d.len(),
        n <= j,
    ensures
        mass(d.update(j, v), n) == mass(d, n),
    decreases n,
{
    if n > 0 {
        lemma_mass_prefix(d, j, v, n - 1);
    }
}

proof fn lemma_prefix_sum_bound(d: Seq<int>, n: int)
    requires
        0 <= n,
    ensures
        -mass(d, n) <= prefix_sum(d, n) <= mass(d, n),
    decreases n,
{
    if n > 0 {
        lemma_prefix_sum_bound(d, n - 1);
    }
}

proof fn lemma_mass_update(d: Seq<int>, j: int, v: int, n: int)
    requires
        0 <= j < d.len(),
        0 <= n <= d.len(),
    ensures
        mass(d.update(j, v), n) <= mass(d, n) + if v - d[j] >= 0 {
            v - d[j]
        } else {
            d[j] - v
        },
    decreases n,
{
    if n > 0 {
        if j == n - 1 {
            lemma_mass_prefix(d, j, v, n - 1);
        } else {
            lemma_mass_update(d, j, v, n - 1);
        }
    }
}

proof fn lemma_entry_bound(d: Seq<int>, j: int, n: int)
    requires
        0 <= j < n <= d.len(),
    ensures
        -mass(d, n) <= d[j] <= mass(d, n),
    decreases n,
{
    if j < n - 1 {
        lemma_entry_bound(d, j, n - 1);
    }
    lemma_mass_monotone(d, 0, n - 1);
}

pub open spec fn ints(v: Seq<i128>) -> Seq<int> {
    v.map_values(|x: i128| x as int)
}

// ---------------------------------------------------------------------------
// The executable projection state.

/// An open code block: its fence token and its lines so far, by row.
struct CodeLines {
    token: String,
    parts: Vec<(usize, String)>,
}

pub open spec fn parts_view(v: Seq<(usize, String)>) -> Seq<(usize, Seq<char>)> {
    v.map_values(|p: (usize, String)| (p.0, p.1@))
}

struct Projector {
    starts: Vec<usize>,
    lines: Vec<RenderedLine>,
    quotes: Vec<i128>,
    lists: Vec<i128>,
    style: Style,
    containers: Vec<Container>,
    ordinals: Vec<Option<u64>>,
    table_row: Option<usize>,
    cell: Option<(usize, usize)>,
    cell_index: usize,
    code: Option<CodeLines>,
}

impl Projector {
    spec fn view(&self) -> ProjV {
        ProjV {
            lines: lines_view(self.lines@),
            quotes: ints(self.quotes@),
            lists: ints(self.lists@),
            style: self.style@,
            containers: self.containers@,
            ordinals: self.ordinals@,
            table_row: self.table_row,
            cell: self.cell,
            cell_index: self.cell_index as nat,
            code: match self.code {
                Some(c) => Some((c.token@, parts_view(c.parts@))),
                None => None,
            },
        }
    }

    spec fn inv(&self, b: Seq<u8>, n: nat) -> bool {
        &&& b.len() <= isize::MAX
        &&& n < usize::MAX
        &&& starts_ok(b, self.starts@)
        &&& self.starts@.len() == row_count(b)
        &&& self.lines@.len() == row_count(b)
        &&& self.quotes@.len() == row_count(b) + 1
        &&& self.lists@.len() == row_count(b) + 1
        &&& forall|r: int| 0 <= r < self.lines@.len() ==> #[trigger] self.lines@[r].source_row == r
        &&& self.style.strong <= n
        &&& self.style.emphasis <= n
        &&& self.style.strike <= n
        &&& self.style.code <= n
        &&& self.style.header <= n
        &&& self.cell_index <= n
        &&& mass(ints(self.quotes@), self.quotes@.len() as int) <= 2 * n
        &&& mass(ints(self.lists@), self.lists@.len() as int) <= 2 * n
    }

    fn new(b: &[u8]) -> (p: Projector)
        requires
            b@.len() <= isize::MAX,
        ensures
            p.inv(b@, 0),
            p.view() == initial(b@),
    {
        let starts = line_starts(b);
        let n = starts.len();
        let mut lines: Vec<RenderedLine> = Vec::new();
        let mut quotes: Vec<i128> = Vec::new();
        let mut lists: Vec<i128> = Vec::new();
        let mut r: usize = 0;
        while r < n
            invariant
                r <= n,
                n == row_count(b@),
                lines@.len() == r,
                quotes@.len() == r,
                lists@.len() == r,
                forall|k: int| 0 <= k < r ==> #[trigger] lines_view(lines@)[k] == initial_line(k),
                forall|k: int| 0 <= k < r ==> #[trigger] lines@[k].source_row == k,
                forall|k: int| 0 <= k < r ==> #[trigger] quotes@[k] == 0,
                forall|k: int| 0 <= k < r ==> #[trigger] lists@[k] == 0,
            decreases n - r,
        {
            let ghost prev = lines@;
            lines.push(
                RenderedLine {
                    source_row: r,
                    kind: BlockKind::Paragraph,
                    spans: Vec::new(),
                    images: Vec::new(),
                    table: None,
                    task_marker: None,
                },
            );
            proof {
                assert(spans_view(lines@[r as int].spans@) =~= Seq::empty());
                assert(images_view(lines@[r as int].images@) =~= Seq::empty());
                assert(lines_view(lines@)[r as int] == initial_line(r as int));
                assert forall|k: int| 0 <= k < r implies #[trigger] lines_view(lines@)[k] == initial_line(k) by {
                    assert(lines@[k] == prev[k]);
                    assert(lines_view(prev)[k] == initial_line(k));
                }
            }
            quotes.push(0);
            lists.push(0);
            r += 1;
        }
        quotes.push(0);
        lists.push(0);
        let p = Projector {
            starts,
            lines,
            quotes,
            lists,
            style: Style::new(),
            containers: Vec::new(),
            ordinals: Vec::new(),
            table_row: None,
            cell: None,
            cell_index: 0,
            code: None,
        };
        proof {
            assert(lines_view(p.lines@) =~= initial(b@).lines);
            assert(ints(p.quotes@) =~= initial(b@).quotes);
            assert(ints(p.lists@) =~= initial(b@).lists);
            assert forall|k: int| 0 <= k < ints(p.quotes@).len() implies ints(p.quotes@)[k] == 0 by {
                if k < n {
                    assert(quotes@[k] == 0);
                }
            }
            assert forall|k: int| 0 <= k < ints(p.lists@).len() implies ints(p.lists@)[k] == 0 by {
                if k < n {
                    assert(lists@[k] == 0);
                }
            }
            lemma_mass_zero(ints(p.quotes@), p.quotes@.len() as int);
            lemma_mass_zero(ints(p.lists@), p.lists@.len() as int);
        }
        p
    }
}

proof fn lemma_mass_zero(d: Seq<int>, n: int)
    requires
        0 <= n <= d.len(),
        forall|k: int| 0 <= k < d.len() ==> d[k] == 0,
    ensures
        mass(d, n) == 0,
    decreases n,
{
    if n > 0 {
        lemma_mass_zero(d, n - 1);
    }
}

fn set_kind_exec(lines: &mut Vec<RenderedLine>, from: usize, to: usize, kind: BlockKind)
    requires
        from <= to <= old(lines)@.len(),
    ensures
        lines_view(final(lines)@) == set_kind(lines_view(old(lines)@), from as int, to as int, kind),
        final(lines)@.len() == old(lines)@.len(),
        forall|r: int| 0 <= r < final(lines)@.len() ==> #[trigger] final(lines)@[r].source_row == old(lines)@[r].source_row,
{
    let ghost l0 = lines_view(lines@);
    let ghost o = lines@;
    let mut r = from;
    while r < to
        invariant
            from <= r <= to <= lines@.len(),
            lines@.len() == l0.len(),
            l0 == lines_view(o),
            o.len() == lines@.len(),
            forall|i: int| 0 <= i < lines@.len() ==> #[trigger] lines@[i].source_row == o[i].source_row,
            lines_view(lines@) == Seq::new(
                l0.len(),
                |i: int|
                    if from <= i < r {
                        LineV { kind, ..l0[i] }
                    } else {
                        l0[i]
                    },
            ),
        decreases to - r,
    {
        let ghost before = lines_view(lines@);
        let ghost ob = lines@;
        assert(before[r as int] == l0[r as int]);
        lines[r].kind = kind;
        assert(lines@[r as int]@ == LineV { kind, ..ob[r as int]@ });
        assert(lines_view(lines@) =~= before.update(r as int, LineV { kind, ..l0[r as int] }));
        r += 1;
    }
    assert(lines_view(lines@) =~= set_kind(l0, from as int, to as int, kind));
}

fn cover_exec(d: &mut Vec<i128>, from: usize, to: usize, Ghost(n): Ghost<nat>)
    requires
        from < to < old(d)@.len(),
        mass(ints(old(d)@), old(d)@.len() as int) <= 2 * n,
        n < usize::MAX,
    ensures
        ints(final(d)@) == cover(ints(old(d)@), from as int, to as int),
        final(d)@.len() == old(d)@.len(),
        mass(ints(final(d)@), final(d)@.len() as int) <= 2 * n + 2,
{
    let ghost d0 = ints(d@);
    proof {
        lemma_entry_bound(d0, from as int, d0.len() as int);
        lemma_entry_bound(d0, to as int, d0.len() as int);
    }
    let x = d[from];
    d.set(from, x + 1);
    let ghost d1 = ints(d@);
    assert(d1 =~= d0.update(from as int, d0[from as int] + 1));
    proof {
        lemma_mass_update(d0, from as int, d0[from as int] + 1, d0.len() as int);
        lemma_entry_bound(d1, to as int, d1.len() as int);
    }
    let y = d[to];
    d.set(to, y - 1);
    assert(ints(d@) =~= d1.update(to as int, d1[to as int] - 1));
    proof {
        lemma_mass_update(d1, to as int, d1[to as int] - 1, d1.len() as int);
    }
}

impl Projector {
    fn row(&self, b: &[u8], offset: usize) -> (r: usize)
        requires
            starts_ok(b@, self.starts@),
            self.starts@.len() == row_count(b@),
        ensures
            r == row_of(b@, offset as int),
            r < row_count(b@),
    {
        source_row(&self.starts, b, offset)
    }

    fn rows(&self, b: &[u8], start: usize, end: usize) -> (r: (usize, usize))
        requires
            starts_ok(b@, self.starts@),
            self.starts@.len() == row_count(b@),
        ensures
            r.0 == first_row(b@, start as int),
            r.1 == end_row(b@, start as int, end as int),
            r.0 < r.1 <= row_count(b@),
    {
        let from = self.row(b, start);
        let last = if end > 0 && end - 1 > start {
            end - 1
        } else {
            start
        };
        let to = self.row(b, last);
        let count = self.starts.len();
        proof {
            let a = if start < b@.len() {
                start as int
            } else {
                b@.len() as int
            };
            let c = if last < b@.len() {
                last as int
            } else {
                b@.len() as int
            };
            lemma_newlines_monotone(b@, a, c);
        }
        (from, to + 1)
    }
}

fn indent_str() -> (s: &'static str)
    ensures
        s@ == indent_text(),
{
    proof {
        reveal_strlit("  ");
    }
    "  "
}

fn bullet_str() -> (s: &'static str)
    ensures
        s@ == bullet(),
{
    proof {
        reveal_strlit("• ");
    }
    "• "
}

fn task_str(checked: bool) -> (s: &'static str)
    ensures
        s@ == task_text(checked),
{
    if checked {
        proof {
            reveal_strlit("[x] ");
        }
        "[x] "
    } else {
        proof {
            reveal_strlit("[ ] ");
        }
        "[ ] "
    }
}

fn number_marker(n: u64) -> (s: String)
    ensures
        s@ == crate::text::decimal(n as nat) + seq!['.', ' '],
{
    let digits = crate::text::decimal_exec(n);
    let mut s = crate::text::string_from_chars(digits.as_slice());
    push_char(&mut s, '.');
    push_char(&mut s, ' ');
    assert(s@ =~= crate::text::decimal(n as nat) + seq!['.', ' ']);
    s
}

fn clamped_exec(b: &[u8], start: usize, end: usize) -> (r: Vec<u8>)
    ensures
        r@ == clamped(b@, start as int, end as int),
{
    let s = if start < b.len() {
        start
    } else {
        b.len()
    };
    let e = if end < s {
        s
    } else if end < b.len() {
        end
    } else {
        b.len()
    };
    slice_vec(b, s, e)
}

fn copy_alignments(a: &Vec<Alignment>) -> (r: Vec<Alignment>)
    ensures
        r@ == a@,
{
    let mut r: Vec<Alignment> = Vec::new();
    let mut k: usize = 0;
    while k < a.len()
        invariant
            k <= a@.len(),
            r@ == a@.take(k as int),
        decreases a.len() - k,
    {
        r.push(a[k]);
        assert(a@.take(k + 1) =~= a@.take(k as int).push(a@[k as int]));
        k += 1;
    }
    assert(a@.take(a@.len() as int) =~= a@);
    r
}

impl Projector {
    fn start_item(&mut self, b: &[u8], row: usize, start: usize, end: usize, Ghost(n): Ghost<nat>)
        requires
            old(self).inv(b@, n),
            row < old(self).lines@.len(),
        ensures
            final(self).inv(b@, n),
            final(self).view() == start_item(b@, old(self).view(), row as int, start as int, end as int),
    {
        let ghost p0 = self.view();
        let ghost s0 = self.starts@;
        let raw = clamped_exec(b, start, end);
        let indent = item_indent_exec(raw.as_slice());
        self.containers.push(Container::Item(indent));
        let d = self.ordinals.len();
        let reps = if d > 0 {
            d - 1
        } else {
            0
        };
        let ghost l0 = lines_view(self.lines@);
        let ghost p1 = self.view();
        let mut i: usize = 0;
        while i < reps
            invariant
                i <= reps,
                row < self.lines@.len(),
                self.lines@.len() == l0.len(),
                d == self.ordinals@.len(),
                reps == if d > 0 { d - 1 } else { 0 },
                self.view() == (ProjV { lines: self.view().lines, ..p1 }),
                p1 == (ProjV { containers: p0.containers.push(Container::Item(indent)), ..p0 }),
                indent == item_indent(clamped(b@, start as int, end as int)),
                l0 == p0.lines,
                self.starts@ == s0,
                self.inv(b@, n),
                forall|r: int| 0 <= r < self.lines@.len() ==> #[trigger] self.lines@[r].source_row == r,
                lines_view(self.lines@) == l0.update(
                    row as int,
                    with_spans(l0[row as int], append_repeated(l0[row as int].spans, self.style@, indent_text(), i as nat)),
                ),
            decreases reps - i,
        {
            let ghost before = lines_view(self.lines@);
            let ghost ob = self.lines@;
            append_row_exec(&mut self.lines, row, &self.style, indent_str());
            assert forall|r: int| 0 <= r < self.lines@.len() implies #[trigger] self.lines@[r].source_row == r by {
                assert(ob[r].source_row == r);
            }
            assert(lines_view(self.lines@) =~= l0.update(
                row as int,
                with_spans(l0[row as int], append_repeated(l0[row as int].spans, self.style@, indent_text(), (i + 1) as nat)),
            ));
            i += 1;
        }
        let numbered = d > 0 && self.ordinals[d - 1].is_some();
        let ghost lr = lines_view(self.lines@);
        let ghost ob = self.lines@;
        if numbered {
            let number = self.ordinals[d - 1].unwrap();
            let marker = number_marker(number);
            append_row_exec(&mut self.lines, row, &self.style, marker.as_str());
            let next = if number < u64::MAX {
                number + 1
            } else {
                number
            };
            self.ordinals.set(d - 1, Some(next));
        } else {
            append_row_exec(&mut self.lines, row, &self.style, bullet_str());
        }
        proof {
            assert forall|r: int| 0 <= r < self.lines@.len() implies #[trigger] self.lines@[r].source_row == r by {
                assert(ob[r].source_row == r);
            }
            assert(lines_view(self.lines@) =~= start_item(b@, p0, row as int, start as int, end as int).lines);
            assert(self.view().ordinals =~= start_item(b@, p0, row as int, start as int, end as int).ordinals);
            assert(self.view().containers =~= start_item(b@, p0, row as int, start as int, end as int).containers);
            assert(starts_ok(b@, self.starts@));
            assert(self.lines@.len() == row_count(b@));
            assert(self.quotes@.len() == row_count(b@) + 1);
            assert(self.style.strong <= n);
            assert(self.cell_index <= n);
            assert(mass(ints(self.quotes@), self.quotes@.len() as int) <= 2 * n);
        }
    }

    fn start_table(&mut self, from: usize, to: usize, alignments: &Vec<Alignment>, Ghost(b): Ghost<Seq<u8>>, Ghost(n): Ghost<nat>)
        requires
            old(self).inv(b, n),
            from <= to <= old(self).lines@.len(),
        ensures
            final(self).inv(b, n),
            final(self).view() == start_table(old(self).view(), from as int, to as int, alignments@),
    {
        let ghost p0 = self.view();
        let ghost l0 = lines_view(self.lines@);
        let mut r = from;
        while r < to
            invariant
                from <= r <= to <= self.lines@.len(),
                self.lines@.len() == l0.len(),
                self.inv(b, n),
                self.view() == (ProjV { lines: self.view().lines, ..p0 }),
                lines_view(self.lines@) == Seq::new(
                    l0.len(),
                    |i: int|
                        if from <= i < r {
                            LineV {
                                table: Some(
                                    TableV {
                                        start: from,
                                        end: to,
                                        header: false,
                                        separator: true,
                                        alignments: alignments@,
                                        cells: Seq::empty(),
                                    },
                                ),
                                ..l0[i]
                            }
                        } else {
                            l0[i]
                        },
                ),
            decreases to - r,
        {
            let ghost before = lines_view(self.lines@);
            let ghost ob = self.lines@;
            assert(before[r as int] == l0[r as int]);
            let t = TableRow {
                start: from,
                end: to,
                header: false,
                separator: true,
                alignments: copy_alignments(alignments),
                cells: Vec::new(),
            };
            assert(cells_view(t.cells@) =~= Seq::empty());
            self.lines[r].table = Some(t);
            assert(self.lines@[r as int].source_row == ob[r as int].source_row);
            assert(lines_view(self.lines@) =~= before.update(
                r as int,
                LineV {
                    table: Some(
                        TableV {
                            start: from,
                            end: to,
                            header: false,
                            separator: true,
                            alignments: alignments@,
                            cells: Seq::empty(),
                        },
                    ),
                    ..l0[r as int]
                },
            ));
            r += 1;
        }
        assert(lines_view(self.lines@) =~= start_table(p0, from as int, to as int, alignments@).lines);
    }

    fn start_table_row(&mut self, row: usize, header: bool, Ghost(b): Ghost<Seq<u8>>, Ghost(n): Ghost<nat>)
        requires
            old(self).inv(b, n),
            n + 1 < usize::MAX,
            row < old(self).lines@.len(),
        ensures
            final(self).inv(b, n + 1),
            final(self).view() == start_table_row(old(self).view(), row as int, header),
    {
        let ghost p0 = self.view();
        let ghost ob = self.lines@;
        let tab = self.lines[row].table.take();
        if let Some(mut t) = tab {
            let ghost t0 = t@;
            t.header = header;
            t.separator = false;
            let width = t.alignments.len();
            while t.cells.len() > width
                invariant
                    t.alignments@ == t0.alignments,
                    t.start == t0.start,
                    t.end == t0.end,
                    t.header == header,
                    !t.separator,
                    width == t0.alignments.len(),
                    forall|k: int| 0 <= k < t.cells@.len() ==> #[trigger] cells_view(t.cells@)[k] == t0.cells[k],
                    t.cells@.len() <= t0.cells.len(),
                    t.cells@.len() == t0.cells.len() || t.cells@.len() >= width,
                decreases t.cells.len(),
            {
                let ghost c0 = t.cells@;
                t.cells.pop();
                assert forall|k: int| 0 <= k < t.cells@.len() implies #[trigger] cells_view(t.cells@)[k] == t0.cells[k] by {
                    assert(cells_view(c0)[k] == cells_view(t.cells@)[k]);
                }
            }
            while t.cells.len() < width
                invariant
                    t.alignments@ == t0.alignments,
                    t.start == t0.start,
                    t.end == t0.end,
                    t.header == header,
                    !t.separator,
                    width == t0.alignments.len(),
                    t.cells@.len() <= width,
                    t.cells@.len() < width ==> t.cells@.len() >= t0.cells.len(),
                    forall|k: int| 0 <= k < t.cells@.len() ==> #[trigger] cells_view(t.cells@)[k] == if k
                        < t0.cells.len() {
                        t0.cells[k]
                    } else {
                        Seq::empty()
                    },
                decreases width - t.cells.len(),
            {
                let ghost c0 = t.cells@;
                t.cells.push(Vec::new());
                assert(spans_view(t.cells@[c0.len() as int]@) =~= Seq::empty());
                assert forall|k: int| 0 <= k < t.cells@.len() implies #[trigger] cells_view(t.cells@)[k] == if k
                    < t0.cells.len() {
                    t0.cells[k]
                } else {
                    Seq::empty()
                } by {
                    if k < c0.len() {
                        assert(cells_view(c0)[k] == cells_view(t.cells@)[k]);
                    }
                }
            }
            assert(cells_view(t.cells@) =~= resized(t0.cells, t0.alignments.len() as int));
            let ghost tv = t@;
            assert(tv == TableV {
                header,
                separator: false,
                cells: resized(t0.cells, t0.alignments.len() as int),
                ..t0
            });
            self.lines[row].table = Some(t);
            assert(self.lines@[row as int]@ == LineV { table: Some(tv), ..ob[row as int]@ });
        }
        if header {
            self.style.header += 1;
        }
        self.table_row = Some(row);
        self.cell_index = 0;
        proof {
            assert(self.lines@[row as int].source_row == ob[row as int].source_row);
            assert forall|r: int| 0 <= r < self.lines@.len() implies #[trigger] self.lines@[r].source_row == r by {
                assert(ob[r].source_row == r);
            }
            assert(lines_view(self.lines@) =~= start_table_row(p0, row as int, header).lines);
        }
    }
}

fn contains_newline(b: &Vec<u8>) -> (r: bool)
    ensures
        r == b@.contains(10u8),
{
    let mut i: usize = 0;
    while i < b.len()
        invariant
            i <= b@.len(),
            forall|k: int| 0 <= k < i ==> b@[k] != 10u8,
        decreases b.len() - i,
    {
        if b[i] == 10 {
            assert(b@[i as int] == 10u8);
            return true;
        }
        i += 1;
    }
    false
}

proof fn lemma_last_break(b: Seq<u8>, st: Seq<usize>, offset: int)
    requires
        starts_ok(b, st),
        st.len() == row_count(b),
        offset >= 0,
    ensures
        last_break(b, if offset < b.len() { offset } else { b.len() as int }) == st[row_of(
            b,
            offset,
        ) as int],
{
    let m: int = if offset < b.len() {
        offset
    } else {
        b.len() as int
    };
    let r = row_of(b, offset) as int;
    lemma_newlines_monotone(b, m, b.len() as int);
    assert(0 <= r < st.len());
    let s = st[r] as int;
    if s > m {
        assert(b[s - 1] == 10u8);
        lemma_newlines_monotone(b, m, s - 1);
        assert(newlines(b, s) == newlines(b, s - 1) + 1);
    }
    lemma_last_break_run(b, st, r, s, m);
}

proof fn lemma_last_break_run(b: Seq<u8>, st: Seq<usize>, r: int, s: int, n: int)
    requires
        starts_ok(b, st),
        0 <= r < st.len(),
        s == st[r],
        s <= n <= b.len(),
        newlines(b, n) == r,
    ensures
        last_break(b, n) == s,
    decreases n,
{
    if n > s {
        lemma_newlines_monotone(b, s, n - 1);
        lemma_newlines_monotone(b, n - 1, n);
        assert(b[n - 1] != 10u8);
        lemma_last_break_run(b, st, r, s, n - 1);
    } else if r > 0 {
        assert(b[s - 1] == 10u8);
    }
}

impl Projector {
    fn start_tag_exec(
        &mut self,
        b: &[u8],
        tag: &MdTag,
        row: usize,
        start: usize,
        end: usize,
        Ghost(n): Ghost<nat>,
    )
        requires
            old(self).inv(b@, n),
            n + 1 < usize::MAX,
            row == row_of(b@, start as int),
        ensures
            final(self).inv(b@, n + 1),
            final(self).view() == start_tag(b@, old(self).view(), *tag, row as int, start as int, end as int),
    {
        let ghost p0 = self.view();
        let ghost ob = self.lines@;
        let (from, to) = self.rows(b, start, end);
        match tag {
            MdTag::Heading(level) => {
                set_kind_exec(&mut self.lines, from, to, BlockKind::Heading(*level));
            },
            MdTag::BlockQuote => {
                cover_exec(&mut self.quotes, from, to, Ghost(n));
                self.containers.push(Container::Quote);
            },
            MdTag::CodeBlock(info) => {
                set_kind_exec(&mut self.lines, from, to, BlockKind::Code);
                self.style.code += 1;
                let token = first_word_exec(info.as_str());
                let parts: Vec<(usize, String)> = Vec::new();
                assert(parts_view(parts@) =~= Seq::empty());
                self.code = Some(CodeLines { token, parts });
            },
            MdTag::List(first) => {
                cover_exec(&mut self.lists, from, to, Ghost(n));
                self.ordinals.push(*first);
            },
            MdTag::Item => {
                self.start_item(b, row, start, end, Ghost(n));
            },
            MdTag::Emphasis => {
                self.style.emphasis += 1;
            },
            MdTag::Strong => {
                self.style.strong += 1;
            },
            MdTag::Strikethrough => {
                self.style.strike += 1;
            },
            MdTag::Image(url, title) => {
                let ghost im0 = images_view(self.lines@[row as int].images@);
                self.lines[row].images.push(PreviewImage { url: url.clone(), title: title.clone() });
                assert(images_view(self.lines@[row as int].images@) =~= im0.push((url@, title@)));
                let ghost k0 = strings_view(self.style.links@);
                self.style.links.push(url.clone());
                assert(strings_view(self.style.links@) =~= k0.push(url@));
                assert(lines_view(self.lines@) =~= start_tag(b@, p0, *tag, row as int, start as int, end as int).lines);
            },
            MdTag::Link(url) => {
                let ghost k0 = strings_view(self.style.links@);
                self.style.links.push(url.clone());
                assert(strings_view(self.style.links@) =~= k0.push(url@));
            },
            MdTag::Table(alignments) => {
                self.start_table(from, to, alignments, Ghost(b@), Ghost(n));
            },
            MdTag::TableHead => {
                self.start_table_row(row, true, Ghost(b@), Ghost(n));
            },
            MdTag::TableRow => {
                self.start_table_row(row, false, Ghost(b@), Ghost(n));
            },
            MdTag::TableCell => {
                self.cell = match self.table_row {
                    Some(r) => Some((r, self.cell_index)),
                    None => None,
                };
                self.cell_index += 1;
            },
            MdTag::Other => {},
        }
        proof {
            assert forall|r: int| 0 <= r < self.lines@.len() implies #[trigger] self.lines@[r].source_row == r by {
                assert(ob[r].source_row == r);
            }
        }
    }

    fn end_tag_exec(&mut self, tag: MdTagEnd, Ghost(b): Ghost<Seq<u8>>, Ghost(n): Ghost<nat>)
        requires
            old(self).inv(b, n),
            n + 1 < usize::MAX,
        ensures
            final(self).inv(b, n + 1),
            final(self).view() == end_tag(old(self).view(), tag),
    {
        let ghost p0 = self.view();
        let ghost ob = self.lines@;
        match tag {
            MdTagEnd::CodeBlock => {
                let code = self.code.take();
                if let Some(c) = code {
                    flush_code_exec(&mut self.lines, &c.token, &c.parts);
                }
                if self.style.code > 0 {
                    self.style.code -= 1;
                }
            },
            MdTagEnd::BlockQuote | MdTagEnd::Item => {
                if self.containers.len() > 0 {
                    self.containers.pop();
                }
            },
            MdTagEnd::List => {
                if self.ordinals.len() > 0 {
                    self.ordinals.pop();
                }
            },
            MdTagEnd::Emphasis => {
                if self.style.emphasis > 0 {
                    self.style.emphasis -= 1;
                }
            },
            MdTagEnd::Strong => {
                if self.style.strong > 0 {
                    self.style.strong -= 1;
                }
            },
            MdTagEnd::Strikethrough => {
                if self.style.strike > 0 {
                    self.style.strike -= 1;
                }
            },
            MdTagEnd::Link | MdTagEnd::Image => {
                if self.style.links.len() > 0 {
                    let ghost k0 = strings_view(self.style.links@);
                    self.style.links.pop();
                    assert(strings_view(self.style.links@) =~= k0.drop_last());
                }
            },
            MdTagEnd::TableCell => {
                self.cell = None;
            },
            MdTagEnd::TableHead => {
                if self.style.header > 0 {
                    self.style.header -= 1;
                }
                self.table_row = None;
            },
            MdTagEnd::TableRow => {
                self.table_row = None;
            },
            MdTagEnd::Heading | MdTagEnd::Other => {},
        }
        proof {
            assert forall|r: int| 0 <= r < self.lines@.len() implies #[trigger] self.lines@[r].source_row == r by {
                assert(ob[r].source_row == r);
            }
        }
    }

    fn text_exec(&mut self, row: usize, text: &String, Ghost(b): Ghost<Seq<u8>>, Ghost(n): Ghost<nat>)
        requires
            old(self).inv(b, n),
            n + 1 < usize::MAX,
            row < old(self).lines@.len(),
        ensures
            final(self).inv(b, n + 1),
            final(self).view() == text_event(old(self).view(), row as int, text@),
    {
        let ghost p0 = self.view();
        let ghost ob = self.lines@;
        if self.code.is_some() {
            let mut c = self.code.take().unwrap();
            let ghost pv0 = parts_view(c.parts@);
            let ghost tk = c.token@;
            let ps = inclusive_pieces_exec(text.as_str());
            let room = self.lines.len() - row;
            let count = if ps.len() < room {
                ps.len()
            } else {
                room
            };
            let ghost want = code_lines(row as int, self.lines@.len() as int, text@);
            let mut k: usize = 0;
            while k < count
                invariant
                    k <= count,
                    count <= ps@.len(),
                    count <= room,
                    room == self.lines@.len() - row,
                    row + room <= usize::MAX,
                    strings_view(ps@) == inclusive_pieces(text@),
                    want == code_lines(row as int, self.lines@.len() as int, text@),
                    want.len() == count,
                    parts_view(c.parts@) == pv0 + want.take(k as int),
                    c.token@ == tk,
                decreases count - k,
            {
                let ghost before = parts_view(c.parts@);
                c.parts.push((row + k, ps[k].clone()));
                assert(parts_view(c.parts@) =~= before.push(want[k as int]));
                assert(want.take(k + 1) =~= want.take(k as int).push(want[k as int]));
                k += 1;
            }
            assert(want.take(count as int) =~= want);
            self.code = Some(c);
        } else {
            append_text_exec(&mut self.lines, row, text.as_str(), &self.style, self.cell);
        }
        proof {
            assert forall|r: int| 0 <= r < self.lines@.len() implies #[trigger] self.lines@[r].source_row == r by {
                assert(ob[r].source_row == r);
            }
        }
    }
}

impl Projector {
    fn code_exec(
        &mut self,
        b: &[u8],
        row: usize,
        text: &String,
        start: usize,
        end: usize,
        Ghost(n): Ghost<nat>,
    )
        requires
            old(self).inv(b@, n),
            n + 1 < usize::MAX,
            row < old(self).lines@.len(),
        ensures
            final(self).inv(b@, n + 1),
            final(self).view() == code_event(b@, old(self).view(), row as int, text@, start as int, end as int),
    {
        let ghost ob = self.lines@;
        self.style.code += 1;
        let raw = clamped_exec(b, start, end);
        if self.cell.is_some() {
            append_text_exec(&mut self.lines, row, text.as_str(), &self.style, self.cell);
        } else if contains_newline(&raw) {
            multiline_code_exec(&mut self.lines, row, raw.as_slice(), &self.containers, &self.style);
        } else {
            append_row_exec(&mut self.lines, row, &self.style, text.as_str());
        }
        self.style.code -= 1;
        proof {
            assert forall|r: int| 0 <= r < self.lines@.len() implies #[trigger] self.lines@[r].source_row == r by {
                assert(ob[r].source_row == r);
            }
        }
    }

    fn apply(&mut self, b: &[u8], e: &SourceEvent, Ghost(n): Ghost<nat>)
        requires
            old(self).inv(b@, n),
            n + 1 < usize::MAX,
        ensures
            final(self).inv(b@, n + 1),
            final(self).view() == step(b@, old(self).view(), *e),
    {
        let ghost ob = self.lines@;
        let ghost p0 = self.view();
        reveal(step);
        let row = self.row(b, e.start);
        match &e.event {
            MdEvent::Start(tag) => self.start_tag_exec(b, tag, row, e.start, e.end, Ghost(n)),
            MdEvent::End(tag) => self.end_tag_exec(*tag, Ghost(b@), Ghost(n)),
            MdEvent::Text(t) => self.text_exec(row, t, Ghost(b@), Ghost(n)),
            MdEvent::Html(t) => self.text_exec(row, t, Ghost(b@), Ghost(n)),
            MdEvent::InlineHtml(t) => self.text_exec(row, t, Ghost(b@), Ghost(n)),
            MdEvent::Code(t) => self.code_exec(b, row, t, e.start, e.end, Ghost(n)),
            MdEvent::Rule => {
                let ghost before = lines_view(self.lines@);
                self.lines[row].kind = BlockKind::Rule;
                assert(lines_view(self.lines@) =~= before.update(
                    row as int,
                    LineV { kind: BlockKind::Rule, ..before[row as int] },
                ));
                assert(self.lines@[row as int].source_row == ob[row as int].source_row);
                assert forall|r: int| 0 <= r < self.lines@.len() implies #[trigger] self.lines@[r].source_row == r by {
                    assert(ob[r].source_row == r);
                }
            },
            MdEvent::TaskListMarker(checked) => {
                proof {
                    lemma_last_break(b@, self.starts@, e.start as int);
                    let m: int = if e.start < b@.len() {
                        e.start as int
                    } else {
                        b@.len() as int
                    };
                    assert(self.starts@[row as int] <= m) by {
                        let sr = self.starts@[row as int] as int;
                        if sr > m {
                            assert(b@[sr - 1] == 10u8);
                            lemma_newlines_monotone(b@, m, sr - 1);
                            assert(newlines(b@, sr) == newlines(b@, sr - 1) + 1);
                        }
                    }
                }
                let offset = e.start - self.starts[row];
                let ghost before = lines_view(self.lines@);
                self.lines[row].task_marker = Some(offset);
                assert(lines_view(self.lines@) =~= before.update(
                    row as int,
                    LineV { task_marker: Some(offset), ..before[row as int] },
                ));
                let ghost mid = self.lines@;
                assert(mid[row as int].source_row == ob[row as int].source_row);
                append_row_exec(&mut self.lines, row, &self.style, task_str(*checked));
                assert forall|r: int| 0 <= r < self.lines@.len() implies #[trigger] self.lines@[r].source_row == r by {
                    assert(mid[r].source_row == self.lines@[r].source_row);
                    assert(ob[r].source_row == r);
                }
            },
            MdEvent::SoftBreak | MdEvent::HardBreak => {},
            MdEvent::InlineMath(t) | MdEvent::DisplayMath(t) | MdEvent::FootnoteReference(t) => {
                append_text_exec(&mut self.lines, row, t.as_str(), &self.style, self.cell);
                assert forall|r: int| 0 <= r < self.lines@.len() implies #[trigger] self.lines@[r].source_row == r by {
                    assert(ob[r].source_row == r);
                }
            },
        }
    }

    /// The rendered lines: any open code block highlighted, and paragraph
    /// rows classified by the lists and quotes around them.
    fn finish(self, Ghost(b): Ghost<Seq<u8>>, Ghost(n): Ghost<nat>) -> (r: Vec<RenderedLine>)
        requires
            self.inv(b, n),
        ensures
            lines_view(r@) == classify(flushed(self.view()), self.view().quotes, self.view().lists),
            forall|k: int| 0 <= k < r@.len() ==> #[trigger] r@[k].source_row == k,
            r@.len() == self.lines@.len(),
    {
        let ghost p = self.view();
        let mut lines = self.lines;
        let ghost ob = lines@;
        match self.code {
            Some(c) => {
                flush_code_exec(&mut lines, &c.token, &c.parts);
            },
            None => {},
        }
        let ghost l0 = lines_view(lines@);
        assert(l0 == flushed(p));
        let quotes = self.quotes;
        let lists = self.lists;
        let ghost q = ints(quotes@);
        let ghost li = ints(lists@);
        proof {
            lemma_mass_monotone(q, 0, q.len() as int);
            lemma_mass_monotone(li, 0, li.len() as int);
        }
        let mut quote_depth: i128 = 0;
        let mut list_depth: i128 = 0;
        let mut r: usize = 0;
        while r < lines.len()
            invariant
                r <= lines@.len(),
                lines@.len() == l0.len(),
                l0.len() + 1 == q.len(),
                q.len() == li.len(),
                q == ints(quotes@),
                li == ints(lists@),
                mass(q, q.len() as int) <= 2 * n,
                mass(li, li.len() as int) <= 2 * n,
                n < usize::MAX,
                quote_depth == prefix_sum(q, r as int),
                list_depth == prefix_sum(li, r as int),
                same_rows(lines@, ob),
                forall|k: int| 0 <= k < ob.len() ==> #[trigger] ob[k].source_row == k,
                lines_view(lines@) == Seq::new(
                    l0.len(),
                    |k: int| if k < r { classify(l0, q, li)[k] } else { l0[k] },
                ),
            decreases lines.len() - r,
        {
            proof {
                lemma_entry_bound(q, r as int, q.len() as int);
                lemma_entry_bound(li, r as int, li.len() as int);
                lemma_prefix_sum_bound(q, r as int);
                lemma_prefix_sum_bound(li, r as int);
                lemma_mass_monotone(q, r as int, q.len() as int);
                lemma_mass_monotone(li, r as int, li.len() as int);
            }
            quote_depth = quote_depth + quotes[r];
            list_depth = list_depth + lists[r];
            let ghost before = lines_view(lines@);
            let ghost ol = lines@;
            assert(before[r as int] == l0[r as int]);
            assert(list_depth == prefix_sum(li, r + 1));
            assert(quote_depth == prefix_sum(q, r + 1));
            if lines[r].kind == BlockKind::Paragraph {
                let kind = if list_depth > 0 {
                    BlockKind::List
                } else if quote_depth > 0 {
                    BlockKind::Quote
                } else {
                    BlockKind::Paragraph
                };
                lines[r].kind = kind;
            }
            assert(lines@[r as int].source_row == ol[r as int].source_row);
            assert(lines_view(lines@) =~= before.update(r as int, classify(l0, q, li)[r as int]));
            r += 1;
        }
        assert(lines_view(lines@) =~= classify(l0, q, li));
        lines
    }
}

#[verifier::external_type_specification]
#[verifier::external_body]
pub struct ExParsedEvent<'a>(pulldown_cmark::Event<'a>);

#[verifier::external_type_specification]
#[verifier::external_body]
pub struct ExParsedTag<'a>(pulldown_cmark::Tag<'a>);

#[verifier::external_type_specification]
#[verifier::external_body]
pub struct ExParsedTagEnd(pulldown_cmark::TagEnd);

/// The events that pulldown-cmark (with tables, strikethrough and task
/// lists) gives for a Markdown text, each with its UTF-8 byte range, in
/// order. CommonMark takes pages to state, so the result is named.
pub uninterp spec fn markdown_events(source: Seq<char>) -> Seq<SourceEvent>;

/// A parsed table's column alignments as the library's.
#[verifier::external_body]
fn parsed_alignments(t: Tag<'_>) -> Vec<Alignment> {
    match t {
        Tag::Table(columns) => columns.into_iter().map(|a| match a {
            pulldown_cmark::Alignment::None => Alignment::Unspecified,
            pulldown_cmark::Alignment::Left => Alignment::Left,
            pulldown_cmark::Alignment::Center => Alignment::Center,
            pulldown_cmark::Alignment::Right => Alignment::Right,
        }).collect(),
        _ => Vec::new(),
    }
}

/// A parsed inline opening tag as the library's.
#[verifier::external_body]
fn parsed_inline_tag(t: Tag<'_>) -> MdTag {
    match t {
        Tag::Emphasis => MdTag::Emphasis,
        Tag::Strong => MdTag::Strong,
        Tag::Strikethrough => MdTag::Strikethrough,
        Tag::Link { dest_url, .. } => MdTag::Link(dest_url.into_string()),
        Tag::Image { dest_url, title, .. } => MdTag::Image(dest_url.into_string(), title.into_string()),
        _ => MdTag::Other,
    }
}

/// A parsed opening tag as the library's (block tags here, inline ones above).
#[verifier::external_body]
fn parsed_tag(t: Tag<'_>) -> MdTag {
    match t {
        Tag::Heading { level, .. } => MdTag::Heading(level as u8),
        Tag::BlockQuote(_) => MdTag::BlockQuote,
        Tag::CodeBlock(CodeBlockKind::Fenced(info)) => MdTag::CodeBlock(info.into_string()),
        Tag::CodeBlock(CodeBlockKind::Indented) => MdTag::CodeBlock(String::new()),
        Tag::List(first) => MdTag::List(first),
        Tag::Item => MdTag::Item,
        t @ Tag::Table(_) => MdTag::Table(parsed_alignments(t)),
        Tag::TableHead => MdTag::TableHead,
        Tag::TableRow => MdTag::TableRow,
        Tag::TableCell => MdTag::TableCell,
        t => parsed_inline_tag(t),
    }
}

/// A parsed inline closing tag as the library's.
#[verifier::external_body]
fn parsed_inline_end(t: TagEnd) -> MdTagEnd {
    match t {
        TagEnd::Emphasis => MdTagEnd::Emphasis,
        TagEnd::Strong => MdTagEnd::Strong,
        TagEnd::Strikethrough => MdTagEnd::Strikethrough,
        TagEnd::Link => MdTagEnd::Link,
        TagEnd::Image => MdTagEnd::Image,
        _ => MdTagEnd::Other,
    }
}

/// A parsed closing tag as the library's (block tags here, inline ones above).
#[verifier::external_body]
fn parsed_end(t: TagEnd) -> MdTagEnd {
    match t {
        TagEnd::Heading(_) => MdTagEnd::Heading,
        TagEnd::BlockQuote(_) => MdTagEnd::BlockQuote,
        TagEnd::CodeBlock => MdTagEnd::CodeBlock,
        TagEnd::List(_) => MdTagEnd::List,
        TagEnd::Item => MdTagEnd::Item,
        TagEnd::TableHead => MdTagEnd::TableHead,
        TagEnd::TableRow => MdTagEnd::TableRow,
        TagEnd::TableCell => MdTagEnd::TableCell,
        t => parsed_inline_end(t),
    }
}

/// A parsed event as the library's.
#[verifier::external_body]
fn parsed_event(e: Event<'_>) -> MdEvent {
    match e {
        Event::Start(t) => MdEvent::Start(parsed_tag(t)),
        Event::End(t) => MdEvent::End(parsed_end(t)),
        Event::Text(s) => MdEvent::Text(s.into_string()),
        Event::Code(s) => MdEvent::Code(s.into_string()),
        Event::InlineMath(s) => MdEvent::InlineMath(s.into_string()),
        Event::DisplayMath(s) => MdEvent::DisplayMath(s.into_string()),
        Event::Html(s) => MdEvent::Html(s.into_string()),
        Event::InlineHtml(s) => MdEvent::InlineHtml(s.into_string()),
        Event::FootnoteReference(s) => MdEvent::FootnoteReference(s.into_string()),
        SoftBreak => MdEvent::SoftBreak,
        HardBreak => MdEvent::HardBreak,
        Rule => MdEvent::Rule,
        Event::TaskListMarker(checked) => MdEvent::TaskListMarker(checked),
    }
}

/// `pulldown_cmark::Parser::new_ext(..).into_offset_iter()` with tables,
/// strikethrough and task lists: the events of the text with their byte
/// ranges, which are the named `markdown_events`.
#[verifier::external_body]
pub(crate) fn parse_markdown_events(source: &str) -> (r: Vec<SourceEvent>)
    ensures
        r@ == markdown_events(source@),
{
    let options = Options::ENABLE_TABLES | Options::ENABLE_STRIKETHROUGH | Options::ENABLE_TASKLISTS;
    Parser::new_ext(source, options)
        .into_offset_iter()
        .map(|(e, range)| SourceEvent { event: parsed_event(e), start: range.start, end: range.end })
        .collect()
}

/// The rendered lines of a Markdown document, one per source row: the
/// document is parsed, then projected. `None` only when the parse gives
/// more events than can be counted.
pub fn render(source: &str) -> (r: Option<Vec<RenderedLine>>)
    requires
        encode_utf8(source@).len() <= isize::MAX,
    ensures
        match r {
            Some(lines) => markdown_events(source@).len() + 1 < usize::MAX && lines_view(lines@)
                == spec_project(encode_utf8(source@), markdown_events(source@)) && lines@.len()
                == row_count(encode_utf8(source@)) && forall|k: int|
                0 <= k < lines@.len() ==> #[trigger] lines@[k].source_row == k,
            None => markdown_events(source@).len() + 1 >= usize::MAX,
        },
{
    let events = parse_markdown_events(source);
    if events.len() >= usize::MAX - 1 {
        return None;
    }
    Some(project(source, &events))
}

/// Project a single full-document parse onto physical source lines.
/// Delimiter-only and trailing empty lines deliberately remain present, so a
/// click always refers to the same row in the editable buffer. `events` are
/// the parse events of `source` with their UTF-8 byte ranges, in order.
pub fn project(source: &str, events: &Vec<SourceEvent>) -> (r: Vec<RenderedLine>)
    requires
        encode_utf8(source@).len() <= isize::MAX,
        events@.len() + 1 < usize::MAX,
    ensures
        lines_view(r@) == spec_project(encode_utf8(source@), events@),
        r@.len() == row_count(encode_utf8(source@)),
        forall|k: int| 0 <= k < r@.len() ==> #[trigger] r@[k].source_row == k,
        rows_in_tables(lines_view(r@)),
{
    let b = source.as_bytes();
    let mut p = Projector::new(b);
    let mut i: usize = 0;
    while i < events.len()
        invariant
            i <= events@.len(),
            events@.len() + 1 < usize::MAX,
            p.inv(b@, i as nat),
            p.view() == fold_events(b@, events@, i as int),
        decreases events.len() - i,
    {
        p.apply(b, &events[i], Ghost(i as nat));
        i += 1;
    }
    let ghost fin = p.view();
    let r = p.finish(Ghost(b@), Ghost(i as nat));
    proof {
        assert(r@.len() == lines_view(r@).len());
        law_table_rows_lie_in_their_table(encode_utf8(source@), events@);
    }
    r
}


/// The preview of a task list item shows its state: a task marker event
/// appends `[x] ` to its row's text when checked and `[ ] ` when not, so a
/// checked and an unchecked task never render alike.
pub proof fn law_task_boxes_show_their_state(b: Seq<u8>, p: ProjV, e: SourceEvent, checked: bool)
    requires
        e.event == MdEvent::TaskListMarker(checked),
        p.lines.len() == row_count(b),
    ensures
        ({
            let row = row_of(b, e.start as int) as int;
            let box_text = seq!['[', if checked { 'x' } else { ' ' }, ']', ' '];
            &&& 0 <= row < step(b, p, e).lines.len()
            &&& spans_text(step(b, p, e).lines[row].spans) == spans_text(p.lines[row].spans) + box_text
        }),
        task_text(true) != task_text(false),
{
    reveal(step);
    let start = e.start as int;
    let row = row_of(b, start) as int;
    lemma_newlines_at_most(b, b.len() as int);
    lemma_newlines_monotone(b, if start < b.len() { start } else { b.len() as int }, b.len() as int);
    assert(0 <= row < p.lines.len());
    let marked = p.lines.update(
        row,
        LineV {
            task_marker: Some(
                (start - last_break(b, if start < b.len() { start } else { b.len() as int })) as usize,
            ),
            ..p.lines[row]
        },
    );
    assert(marked[row].spans == p.lines[row].spans);
    law_appending_keeps_the_text(marked[row].spans, p.style, task_text(checked));
    assert(task_text(checked) == seq!['[', if checked { 'x' } else { ' ' }, ']', ' ']);
    assert(task_text(true)[1] != task_text(false)[1]);
}

} // verus!
