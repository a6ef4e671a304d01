//! Small source edits for Markdown typing; literal paste remains untouched.
//!
//! When Return is pressed inside a list item, a task or a block quote, the
//! container prefix continues on the new line; on an otherwise empty item the
//! prefix is removed instead.
use vstd::prelude::*;
use vstd::utf8::{encode_utf8, is_char_boundary};

use crate::text::{digit_char, all_whitespace_from, chars_vec, decimal, decimal_exec, is_whitespace, string_from_chars};

verus! {

#[derive(Debug, PartialEq, Eq)]
pub enum EnterEdit {
    /// Insert this text (a newline and the continued prefix) at the caret.
    Continue(String),
    /// Replace the byte range `from..to` of the line with nothing.
    Exit { from: usize, to: usize },
}

/// The mathematical meaning of an [`EnterEdit`].
pub enum EnterEditSpec {
    Continue(Seq<char>),
    Exit { from: int, to: int },
}

pub open spec fn edit_view(r: Option<EnterEdit>) -> Option<EnterEditSpec> {
    match r {
        None => None,
        Some(EnterEdit::Continue(t)) => Some(EnterEditSpec::Continue(t@)),
        Some(EnterEdit::Exit { from, to }) => Some(
            EnterEditSpec::Exit { from: from as int, to: to as int },
        ),
    }
}

pub open spec fn opt_int(o: Option<usize>) -> Option<int> {
    match o {
        Some(q) => Some(q as int),
        None => None,
    }
}

pub open spec fn is_blank(c: char) -> bool {
    c == ' ' || c == '\t'
}

pub open spec fn is_digit(c: char) -> bool {
    '0' <= c && c <= '9'
}

/// First index at or after `i` that is not a space or tab.
pub open spec fn skip_blanks(s: Seq<char>, i: int) -> int
    decreases s.len() - i,
{
    if 0 <= i < s.len() && is_blank(s[i]) {
        skip_blanks(s, i + 1)
    } else {
        i
    }
}

/// First index at or after `i` that is not an ASCII digit.
pub open spec fn digits_end(s: Seq<char>, i: int) -> int
    decreases s.len() - i,
{
    if 0 <= i < s.len() && is_digit(s[i]) {
        digits_end(s, i + 1)
    } else {
        i
    }
}

pub proof fn lemma_skip_blanks(s: Seq<char>, i: int)
    requires
        0 <= i <= s.len(),
    ensures
        i <= skip_blanks(s, i) <= s.len(),
        forall|k: int| i <= k < skip_blanks(s, i) ==> is_blank(#[trigger] s[k]),
        skip_blanks(s, i) < s.len() ==> !is_blank(s[skip_blanks(s, i)]),
    decreases s.len() - i,
{
    if i < s.len() && is_blank(s[i]) {
        lemma_skip_blanks(s, i + 1);
    }
}

pub proof fn lemma_digits_end(s: Seq<char>, i: int)
    requires
        0 <= i <= s.len(),
    ensures
        i <= digits_end(s, i) <= s.len(),
        forall|k: int| i <= k < digits_end(s, i) ==> is_digit(#[trigger] s[k]),
        digits_end(s, i) < s.len() ==> !is_digit(s[digits_end(s, i)]),
    decreases s.len() - i,
{
    if i < s.len() && is_digit(s[i]) {
        lemma_digits_end(s, i + 1);
    }
}

/// Scan a run of `>` quote markers, each followed by optional blanks. Returns
/// the index after the run and the index of its last `>`.
pub open spec fn quote_scan(s: Seq<char>, i: int, last: Option<int>) -> (int, Option<int>)
    decreases s.len() - i,
{
    if 0 <= i < s.len() && s[i] == '>' {
        proof {
            lemma_skip_blanks(s, i + 1);
        }
        quote_scan(s, skip_blanks(s, i + 1), Some(i))
    } else {
        (i, last)
    }
}

/// The numeric value of the decimal digits `s[a..b]`.
pub open spec fn digits_value(s: Seq<char>, a: int, b: int) -> nat
    decreases b - a,
{
    if b <= a {
        0
    } else {
        digits_value(s, a, b - 1) * 10 + ((s[b - 1] as u32 - '0' as u32) as nat)
    }
}

/// The list marker that continues the item starting at `i`, and the index just
/// after the marker in the current line: the same bullet, or the next number.
pub open spec fn next_marker(s: Seq<char>, i: int) -> Option<(Seq<char>, int)> {
    if i + 1 < s.len() && (s[i] == '-' || s[i] == '+' || s[i] == '*') && is_blank(s[i + 1]) {
        Some((seq![s[i]], i + 1))
    } else {
        let d = digits_end(s, i);
        if 1 <= d - i <= 9 && d + 1 < s.len() && (s[d] == '.' || s[d] == ')') && is_blank(
            s[d + 1],
        ) {
            Some((decimal(digits_value(s, i, d) + 1).push(s[d]), d + 1))
        } else {
            None
        }
    }
}

/// A task checkbox `[ ]`, `[x]` or `[X]` at `j`, ending the line or followed by a blank.
pub open spec fn task_at(s: Seq<char>, j: int) -> bool {
    &&& 0 <= j
    &&& j + 2 < s.len()
    &&& s[j] == '['
    &&& (s[j + 1] == ' ' || s[j + 1] == 'x' || s[j + 1] == 'X')
    &&& s[j + 2] == ']'
    &&& (j + 3 == s.len() || is_blank(s[j + 3]))
}

/// For a line with a list marker: the continued prefix, and the end of the
/// whole prefix (marker, spacing and any task box) in the current line.
pub open spec fn list_prefix(s: Seq<char>, start: int, marker: Seq<char>, after: int) -> (
    Seq<char>,
    int,
) {
    let spacing = skip_blanks(s, after);
    let head = s.subrange(0, start) + marker + s.subrange(after, spacing);
    if task_at(s, spacing) {
        let k = skip_blanks(s, spacing + 3);
        let gap = if k == spacing + 3 {
            seq![' ']
        } else {
            s.subrange(spacing + 3, k)
        };
        (head + seq!['[', ' ', ']'] + gap, k)
    } else {
        (head, spacing)
    }
}

/// What pressing Return with the caret at byte `col` of `s` does. Prefix
/// characters are ASCII, so their character indices are also byte offsets.
pub open spec fn spec_enter_edit(s: Seq<char>, col: int) -> Option<EnterEditSpec> {
    if !is_char_boundary(encode_utf8(s), col) {
        None
    } else {
        let (start, last_quote) = quote_scan(s, skip_blanks(s, 0), None);
        let marker = next_marker(s, start);
        if marker is None && last_quote is None {
            None
        } else {
            let (next, end) = match marker {
                Some((m, after)) => list_prefix(s, start, m, after),
                None => (s.subrange(0, start), start),
            };
            if col < end {
                None
            } else if all_whitespace_from(s, end) {
                Some(
                    EnterEditSpec::Exit {
                        from: if marker is Some {
                            start
                        } else {
                            last_quote->0
                        },
                        to: encode_utf8(s).len() as int,
                    },
                )
            } else {
                Some(EnterEditSpec::Continue(seq!['\n'] + next))
            }
        }
    }
}

fn skip_blanks_exec(cs: &Vec<char>, start: usize) -> (j: usize)
    requires
        start <= cs.len(),
    ensures
        j == skip_blanks(cs@, start as int),
        start <= j <= cs.len(),
{
    proof {
        lemma_skip_blanks(cs@, start as int);
    }
    let mut j = start;
    while j < cs.len() && (cs[j] == ' ' || cs[j] == '\t')
        invariant
            start <= j <= cs.len(),
            skip_blanks(cs@, j as int) == skip_blanks(cs@, start as int),
        decreases cs.len() - j,
    {
        j += 1;
    }
    j
}

fn digits_end_exec(cs: &Vec<char>, start: usize) -> (j: usize)
    requires
        start <= cs.len(),
    ensures
        j == digits_end(cs@, start as int),
        start <= j <= cs.len(),
{
    proof {
        lemma_digits_end(cs@, start as int);
    }
    let mut j = start;
    while j < cs.len() && '0' <= cs[j] && cs[j] <= '9'
        invariant
            start <= j <= cs.len(),
            digits_end(cs@, j as int) == digits_end(cs@, start as int),
        decreases cs.len() - j,
    {
        j += 1;
    }
    j
}

pub open spec fn pow10(k: nat) -> nat
    decreases k,
{
    if k == 0 {
        1
    } else {
        10 * pow10((k - 1) as nat)
    }
}

proof fn lemma_pow10_le(k: nat)
    requires
        k <= 9,
    ensures
        pow10(k) <= 1_000_000_000,
    decreases k,
{
    reveal_with_fuel(pow10, 10);
}

proof fn lemma_pow10_mono(a: nat, b: nat)
    requires
        a <= b,
    ensures
        pow10(a) <= pow10(b),
    decreases b,
{
    if a < b {
        lemma_pow10_mono(a, (b - 1) as nat);
    }
}

/// Value of the digits `cs[a..b]`, which number at most nine.
fn digits_value_exec(cs: &Vec<char>, a: usize, b: usize) -> (v: u64)
    requires
        a <= b <= cs.len(),
        b - a <= 9,
        forall|k: int| a <= k < b ==> is_digit(#[trigger] cs@[k]),
    ensures
        v == digits_value(cs@, a as int, b as int),
        v < 1_000_000_000,
{
    let mut v: u64 = 0;
    let mut i = a;
    while i < b
        invariant
            a <= i <= b,
            b <= cs.len(),
            b - a <= 9,
            forall|k: int| a <= k < b ==> is_digit(#[trigger] cs@[k]),
            v == digits_value(cs@, a as int, i as int),
            v < pow10((i - a) as nat),
        decreases b - i,
    {
        let d = (cs[i] as u32) - ('0' as u32);
        proof {
            assert(is_digit(cs@[i as int]));
            lemma_pow10_mono((i - a + 1) as nat, 9);
            lemma_pow10_le(9);
            assert(pow10((i - a + 1) as nat) == 10 * pow10((i - a) as nat));
        }
        v = v * 10 + d as u64;
        i += 1;
    }
    proof {
        lemma_pow10_mono((b - a) as nat, 9);
        lemma_pow10_le(9);
    }
    v
}

fn push_range(out: &mut Vec<char>, cs: &Vec<char>, a: usize, b: usize)
    requires
        a <= b <= cs.len(),
    ensures
        final(out)@ == old(out)@ + cs@.subrange(a as int, b as int),
{
    let mut i = a;
    while i < b
        invariant
            a <= i <= b <= cs.len(),
            out@ == old(out)@ + cs@.subrange(a as int, i as int),
        decreases b - i,
    {
        out.push(cs[i]);
        assert(cs@.subrange(a as int, i + 1) =~= cs@.subrange(a as int, i as int).push(
            cs@[i as int],
        ));
        i += 1;
    }
}

fn scan_quotes(cs: &Vec<char>) -> (r: (usize, Option<usize>))
    ensures
        (r.0 as int, opt_int(r.1)) == quote_scan(cs@, skip_blanks(cs@, 0), None),
        r.0 <= cs.len(),
        r.1 matches Some(q) ==> q < r.0,
{
    let ghost s = cs@;
    let n = cs.len();
    let first = skip_blanks_exec(cs, 0);
    let mut i = first;
    let mut last_quote: Option<usize> = None;
    while i < n && cs[i] == '>'
        invariant
            0 <= i <= n,
            n == s.len(),
            s == cs@,
            first == skip_blanks(s, 0),
            quote_scan(s, i as int, opt_int(last_quote)) == quote_scan(s, first as int, None),
            last_quote matches Some(q) ==> q < i,
        decreases n - i,
    {
        last_quote = Some(i);
        i = skip_blanks_exec(cs, i + 1);
    }
    (i, last_quote)
}

fn marker_exec(cs: &Vec<char>, i: usize) -> (r: Option<(Vec<char>, usize)>)
    requires
        i <= cs.len(),
    ensures
        match r {
            None => next_marker(cs@, i as int) is None,
            Some((m, after)) => next_marker(cs@, i as int) == Some((m@, after as int)) && after
                <= cs.len(),
        },
{
    let ghost s = cs@;
    let n = cs.len();
    if n > 0 && i < n - 1 && (cs[i] == '-' || cs[i] == '+' || cs[i] == '*') && (cs[i + 1] == ' '
        || cs[i + 1] == '\t') {
        let mut m = Vec::new();
        m.push(cs[i]);
        assert(m@ =~= seq![s[i as int]]);
        Some((m, i + 1))
    } else {
        let d = digits_end_exec(cs, i);
        proof {
            lemma_digits_end(s, i as int);
        }
        if 1 <= d - i && d - i <= 9 && n > 0 && d < n - 1 && (cs[d] == '.' || cs[d] == ')') && (
        cs[d + 1] == ' ' || cs[d + 1] == '\t') {
            let value = digits_value_exec(cs, i, d);
            let mut m = decimal_exec(value + 1);
            m.push(cs[d]);
            Some((m, d + 1))
        } else {
            None
        }
    }
}

/// The continued prefix and the end of the prefix in the current line.
fn prefix_exec(cs: &Vec<char>, start: usize, marker: &Option<(Vec<char>, usize)>) -> (r: (
    Vec<char>,
    usize,
))
    requires
        start <= cs.len(),
        marker matches Some((m, after)) ==> after <= cs.len(),
    ensures
        r.1 <= cs.len(),
        (r.0@, r.1 as int) == match marker {
            Some((m, after)) => list_prefix(cs@, start as int, m@, *after as int),
            None => (cs@.subrange(0, start as int), start as int),
        },
{
    let ghost s = cs@;
    let n = cs.len();
    let mut next: Vec<char> = Vec::new();
    push_range(&mut next, cs, 0, start);
    match marker {
        Some((m, after)) => {
            let after = *after;
            let mut k: usize = 0;
            while k < m.len()
                invariant
                    0 <= k <= m.len(),
                    start <= s.len(),
                    next@ == s.subrange(0, start as int) + m@.take(k as int),
                decreases m.len() - k,
            {
                next.push(m[k]);
                assert(m@.take(k + 1) =~= m@.take(k as int).push(m@[k as int]));
                k += 1;
            }
            assert(m@.take(m.len() as int) =~= m@);
            let spacing = skip_blanks_exec(cs, after);
            push_range(&mut next, cs, after, spacing);
            if n > 2 && spacing < n - 2 && cs[spacing] == '[' && (cs[spacing + 1] == ' '
                || cs[spacing + 1] == 'x' || cs[spacing + 1] == 'X') && cs[spacing + 2] == ']'
                && (spacing + 3 == n || cs[spacing + 3] == ' ' || cs[spacing + 3] == '\t') {
                let k = skip_blanks_exec(cs, spacing + 3);
                next.push('[');
                next.push(' ');
                next.push(']');
                if k == spacing + 3 {
                    next.push(' ');
                } else {
                    push_range(&mut next, cs, spacing + 3, k);
                }
                proof {
                    let gap = if k == spacing + 3 {
                        seq![' ']
                    } else {
                        s.subrange(spacing + 3, k as int)
                    };
                    assert(next@ =~= s.subrange(0, start as int) + m@ + s.subrange(
                        after as int,
                        spacing as int,
                    ) + seq!['[', ' ', ']'] + gap);
                }
                (next, k)
            } else {
                assert(next@ =~= s.subrange(0, start as int) + m@ + s.subrange(
                    after as int,
                    spacing as int,
                ));
                (next, spacing)
            }
        },
        None => {
            (next, start)
        },
    }
}

fn blank_from(cs: &Vec<char>, end: usize) -> (b: bool)
    requires
        end <= cs.len(),
    ensures
        b == all_whitespace_from(cs@, end as int),
{
    let mut k = end;
    while k < cs.len()
        invariant
            end <= k <= cs.len(),
            forall|j: int| end <= j < k ==> crate::text::is_unicode_whitespace(#[trigger] cs@[j]),
        decreases cs.len() - k,
    {
        if !is_whitespace(cs[k]) {
            return false;
        }
        k += 1;
    }
    true
}

/// Inspect only the prefix before the caret. The caller excludes code blocks
/// and non-Markdown documents using the document's parsed block kinds.
pub fn enter_edit(line: &str, col: usize) -> (r: Option<EnterEdit>)
    ensures
        edit_view(r) == spec_enter_edit(line@, col as int),
{
    if !line.is_char_boundary(col) {
        return None;
    }
    let cs = chars_vec(line);
    let (start, last_quote) = scan_quotes(&cs);
    let marker = marker_exec(&cs, start);
    if marker.is_none() && last_quote.is_none() {
        return None;
    }
    let (next, end) = prefix_exec(&cs, start, &marker);
    if col < end {
        return None;
    }
    if blank_from(&cs, end) {
        let from = match (&marker, last_quote) {
            (None, Some(q)) => q,
            _ => start,
        };
        let to = line.as_bytes().len();
        Some(EnterEdit::Exit { from, to })
    } else {
        let mut text: Vec<char> = Vec::new();
        text.push('\n');
        let mut k: usize = 0;
        while k < next.len()
            invariant
                0 <= k <= next.len(),
                text@ == seq!['\n'] + next@.take(k as int),
            decreases next.len() - k,
        {
            text.push(next[k]);
            assert(next@.take(k + 1) =~= next@.take(k as int).push(next@[k as int]));
            k += 1;
        }
        assert(next@.take(next.len() as int) =~= next@);
        Some(EnterEdit::Continue(string_from_chars(text.as_slice())))
    }
}

/// The characters a continued Markdown prefix is made of: blanks, quote
/// markers, list bullets, ordinal numbers with their `.` or `)`, and an
/// empty task box.
pub open spec fn prefix_char(c: char) -> bool {
    c == ' ' || c == '\t' || c == '>' || is_digit(c) || c == '-' || c == '+' || c == '*' || c == '.'
        || c == ')' || c == '[' || c == ']'
}

proof fn lemma_quote_scan(s: Seq<char>, i: int, last: Option<int>)
    requires
        0 <= i <= s.len(),
        forall|k: int| 0 <= k < i ==> is_blank(#[trigger] s[k]) || s[k] == '>',
        last matches Some(q) ==> 0 <= q < i && s[q] == '>',
    ensures
        ({
            let (end, lq) = quote_scan(s, i, last);
            &&& i <= end <= s.len()
            &&& forall|k: int| 0 <= k < end ==> is_blank(#[trigger] s[k]) || s[k] == '>'
            &&& (lq matches Some(q) ==> 0 <= q < end && s[q] == '>')
            &&& (lq is None ==> last is None)
        }),
    decreases s.len() - i,
{
    if 0 <= i < s.len() && s[i] == '>' {
        lemma_skip_blanks(s, i + 1);
        lemma_quote_scan(s, skip_blanks(s, i + 1), Some(i));
    }
}

proof fn lemma_decimal_digits(n: nat)
    ensures
        forall|k: int| 0 <= k < decimal(n).len() ==> is_digit(#[trigger] decimal(n)[k]),
    decreases n,
{
    let d = if n < 10 {
        n
    } else {
        n % 10
    };
    assert(d < 10);
    assert(('0' as u32) == 48);
    assert(is_digit(digit_char(d)));
    if n >= 10 {
        lemma_decimal_digits(n / 10);
        assert(decimal(n) == decimal(n / 10).push(digit_char(d)));
    }
}

proof fn lemma_chars_at_most_bytes(s: Seq<char>)
    ensures
        s.len() <= encode_utf8(s).len(),
    decreases s.len(),
{
    if s.len() > 0 {
        lemma_chars_at_most_bytes(s.drop_first());
        assert(encode_utf8(s) == vstd::utf8::encode_scalar(s[0] as u32) + encode_utf8(s.drop_first()));
        vstd::utf8::char_is_scalar(s[0]);
    }
}

/// Return either continues the Markdown prefix or leaves it: a continuation
/// is a line break followed only by prefix characters (never item text, and
/// a task box always comes back unchecked); leaving removes from a position
/// after only blanks and quote markers to the end of the line.
pub proof fn law_enter_edit_shape(s: Seq<char>, col: int)
    ensures
        match spec_enter_edit(s, col) {
            Some(EnterEditSpec::Continue(t)) => t.len() >= 1 && t[0] == '\n' && forall|k: int|
                1 <= k < t.len() ==> prefix_char(#[trigger] t[k]),
            Some(EnterEditSpec::Exit { from, to }) => to == encode_utf8(s).len() && 0 <= from < to
                && forall|k: int| 0 <= k < from ==> is_blank(#[trigger] s[k]) || s[k] == '>',
            None => true,
        },
{
    if is_char_boundary(encode_utf8(s), col) {
        lemma_skip_blanks(s, 0);
        let b = skip_blanks(s, 0);
        lemma_quote_scan(s, b, None);
        let (start, last_quote) = quote_scan(s, b, None);
        let marker = next_marker(s, start);
        lemma_chars_at_most_bytes(s);
        match marker {
            Some((m, after)) => {
                let d = digits_end(s, start);
                if start <= s.len() {
                    lemma_digits_end(s, start);
                }
                if !(start + 1 < s.len() && (s[start] == '-' || s[start] == '+' || s[start] == '*')
                    && is_blank(s[start + 1])) {
                    lemma_decimal_digits(digits_value(s, start, d) + 1);
                }
                assert(forall|k: int| 0 <= k < m.len() ==> prefix_char(#[trigger] m[k]));
                lemma_skip_blanks(s, after);
                let spacing = skip_blanks(s, after);
                let head = s.subrange(0, start) + m + s.subrange(after, spacing);
                assert(forall|k: int| 0 <= k < head.len() ==> prefix_char(#[trigger] head[k])) by {
                    assert forall|k: int| 0 <= k < head.len() implies prefix_char(#[trigger] head[k]) by {
                        if k < start {
                            assert(head[k] == s[k]);
                        } else if k < start + m.len() {
                            assert(head[k] == m[k - start]);
                        } else {
                            assert(head[k] == s[after + (k - start - m.len())]);
                        }
                    }
                }
                if task_at(s, spacing) {
                    lemma_skip_blanks(s, spacing + 3);
                    let k3 = skip_blanks(s, spacing + 3);
                    let gap = if k3 == spacing + 3 {
                        seq![' ']
                    } else {
                        s.subrange(spacing + 3, k3)
                    };
                    let t = seq!['\n'] + (head + seq!['[', ' ', ']'] + gap);
                    assert forall|k: int| 1 <= k < t.len() implies prefix_char(#[trigger] t[k]) by {
                        let j = k - 1;
                        if j < head.len() {
                            assert(t[k] == head[j]);
                        } else if j < head.len() + 3 {
                        } else {
                            assert(t[k] == gap[j - head.len() - 3]);
                        }
                    }
                } else {
                    let t = seq!['\n'] + head;
                    assert forall|k: int| 1 <= k < t.len() implies prefix_char(#[trigger] t[k]) by {
                        assert(t[k] == head[k - 1]);
                    }
                }
            },
            None => {
                let t = seq!['\n'] + s.subrange(0, start);
                assert forall|k: int| 1 <= k < t.len() implies prefix_char(#[trigger] t[k]) by {
                    assert(t[k] == s[k - 1]);
                }
            },
        }
    }
}


/// A continued bullet item keeps its bullet: when the line's list marker
/// (after any blanks and quote markers) is `-`, `+` or `*` and Return
/// continues it, the inserted text is a line break, the unchanged text before
/// the marker, and that same marker character.
pub proof fn law_bullet_items_keep_their_bullet(s: Seq<char>, col: int)
    requires
        ({
            let start = quote_scan(s, skip_blanks(s, 0), None).0;
            &&& 0 <= start
            &&& start + 1 < s.len()
            &&& s[start] == '-' || s[start] == '+' || s[start] == '*'
            &&& is_blank(s[start + 1])
        }),
        spec_enter_edit(s, col) matches Some(EnterEditSpec::Continue(_)),
    ensures
        ({
            let start = quote_scan(s, skip_blanks(s, 0), None).0;
            match spec_enter_edit(s, col) {
                Some(EnterEditSpec::Continue(t)) => {
                    &&& t.len() >= start + 2
                    &&& t[0] == '\n'
                    &&& t.subrange(1, start + 1) == s.subrange(0, start)
                    &&& t[start + 1] == s[start]
                },
                _ => false,
            }
        }),
{
    lemma_skip_blanks(s, 0);
    lemma_quote_scan(s, skip_blanks(s, 0), None);
    let start = quote_scan(s, skip_blanks(s, 0), None).0;
    let m = seq![s[start]];
    let after = start + 1;
    lemma_skip_blanks(s, after);
    let spacing = skip_blanks(s, after);
    let head = s.subrange(0, start) + m + s.subrange(after, spacing);
    let (next, end) = list_prefix(s, start, m, after);
    if task_at(s, spacing) {
        lemma_skip_blanks(s, spacing + 3);
        let k = skip_blanks(s, spacing + 3);
        let gap = if k == spacing + 3 { seq![' '] } else { s.subrange(spacing + 3, k) };
        assert(next == head + seq!['[', ' ', ']'] + gap);
        let t = seq!['\n'] + next;
        assert(t.subrange(1, start + 1) =~= s.subrange(0, start));
        assert(t[start + 1] == head[start]);
    } else {
        let t = seq!['\n'] + next;
        assert(t.subrange(1, start + 1) =~= s.subrange(0, start));
        assert(t[start + 1] == head[start]);
    }
}

} // verus!
