//! Offsets for text input: input methods count UTF-16 code units, while the
//! editor counts bytes of UTF-8. Both conversions land on character
//! boundaries, and a boundary converted one way and back is unchanged.
use vstd::prelude::*;
use vstd::utf8::{encode_scalar, encode_utf8};

use crate::picker::chars_between;
use crate::terminal::{concat_all, extended_grapheme_clusters, grapheme_clusters, string_views};
use crate::text::{chars_vec, string_from_chars};

verus! {

/// The number of UTF-8 bytes that encode `c`.
pub open spec fn utf8_width(c: char) -> nat {
    let v = c as u32;
    if v <= 0x7f {
        1
    } else if v <= 0x7ff {
        2
    } else if v <= 0xffff {
        3
    } else {
        4
    }
}

/// The number of UTF-16 code units that encode `c`.
pub open spec fn utf16_width(c: char) -> nat {
    if (c as u32) <= 0xffff {
        1
    } else {
        2
    }
}

pub open spec fn utf8_len(s: Seq<char>) -> nat
    decreases s.len(),
{
    if s.len() == 0 {
        0
    } else {
        utf8_len(s.drop_last()) + utf8_width(s.last())
    }
}

pub open spec fn utf16_len(s: Seq<char>) -> nat
    decreases s.len(),
{
    if s.len() == 0 {
        0
    } else {
        utf16_len(s.drop_last()) + utf16_width(s.last())
    }
}

/// The number of leading characters of the longest prefix of `s` within
/// `units` UTF-16 code units.
pub open spec fn longest_within_utf16(s: Seq<char>, units: int) -> nat
    decreases s.len(),
{
    if utf16_len(s) <= units || s.len() == 0 {
        s.len()
    } else {
        longest_within_utf16(s.drop_last(), units)
    }
}

/// The number of leading characters of the longest prefix of `s` within
/// `bytes` bytes of UTF-8.
pub open spec fn longest_within_utf8(s: Seq<char>, bytes: int) -> nat
    decreases s.len(),
{
    if utf8_len(s) <= bytes || s.len() == 0 {
        s.len()
    } else {
        longest_within_utf8(s.drop_last(), bytes)
    }
}

/// `bytes` falls on a character boundary of `s`, or at or past its end.
pub open spec fn on_boundary(s: Seq<char>, bytes: int) -> bool {
    bytes >= utf8_len(s) || exists|k: int| 0 <= k <= s.len() && #[trigger] utf8_len(s.take(k)) == bytes
}

/// The byte offset of the first character that does not fit within `units`
/// UTF-16 code units (the end of the text when all fit).
pub open spec fn spec_utf8_offset(s: Seq<char>, units: int) -> nat {
    utf8_len(s.take(longest_within_utf16(s, units) as int))
}

/// The UTF-16 length of the text before byte offset `bytes`.
pub open spec fn spec_utf16_offset(s: Seq<char>, bytes: int) -> nat {
    utf16_len(s.take(longest_within_utf8(s, bytes) as int))
}

pub(crate) proof fn lemma_take_step(s: Seq<char>, i: int)
    requires
        0 <= i < s.len(),
    ensures
        utf8_len(s.take(i + 1)) == utf8_len(s.take(i)) + utf8_width(s[i]),
        utf16_len(s.take(i + 1)) == utf16_len(s.take(i)) + utf16_width(s[i]),
{
    assert(s.take(i + 1).drop_last() =~= s.take(i));
    assert(s.take(i + 1).last() == s[i]);
}

/// Longer prefixes are strictly longer in both encodings.
pub(crate) proof fn lemma_prefix_grows(s: Seq<char>, i: int, j: int)
    requires
        0 <= i < j <= s.len(),
    ensures
        utf8_len(s.take(i)) < utf8_len(s.take(j)),
        utf16_len(s.take(i)) < utf16_len(s.take(j)),
    decreases j - i,
{
    lemma_take_step(s, j - 1);
    if i < j - 1 {
        lemma_prefix_grows(s, i, j - 1);
    }
}

proof fn lemma_prefix_of_drop_last(s: Seq<char>, k: int)
    requires
        0 <= k < s.len(),
    ensures
        s.drop_last().take(k) == s.take(k),
{
    assert(s.drop_last().take(k) =~= s.take(k));
}

/// The longest prefix within a budget is the one a left-to-right scan
/// stops at: `i` characters fit and the next one does not.
proof fn lemma_longest_utf16(s: Seq<char>, units: int, i: int)
    requires
        0 <= i <= s.len(),
        utf16_len(s.take(i)) <= units,
        i < s.len() ==> utf16_len(s.take(i + 1)) > units,
    ensures
        longest_within_utf16(s, units) == i,
    decreases s.len(),
{
    if i < s.len() {
        assert(s.take(s.len() as int) =~= s);
        if i + 1 < s.len() {
            lemma_prefix_grows(s, i + 1, s.len() as int);
        }
        lemma_prefix_of_drop_last(s, i);
        if i + 1 < s.len() {
            lemma_prefix_of_drop_last(s, i + 1);
        } else {
            assert(s.drop_last() =~= s.take(i));
        }
        lemma_longest_utf16(s.drop_last(), units, i);
    } else {
        assert(s.take(i) =~= s);
    }
}

pub(crate) proof fn lemma_longest_utf8(s: Seq<char>, bytes: int, i: int)
    requires
        0 <= i <= s.len(),
        utf8_len(s.take(i)) <= bytes,
        i < s.len() ==> utf8_len(s.take(i + 1)) > bytes,
    ensures
        longest_within_utf8(s, bytes) == i,
    decreases s.len(),
{
    if i < s.len() {
        assert(s.take(s.len() as int) =~= s);
        if i + 1 < s.len() {
            lemma_prefix_grows(s, i + 1, s.len() as int);
        }
        lemma_prefix_of_drop_last(s, i);
        if i + 1 < s.len() {
            lemma_prefix_of_drop_last(s, i + 1);
        } else {
            assert(s.drop_last() =~= s.take(i));
        }
        lemma_longest_utf8(s.drop_last(), bytes, i);
    } else {
        assert(s.take(i) =~= s);
    }
}

pub(crate) proof fn lemma_encode_concat(a: Seq<char>, b: Seq<char>)
    ensures
        encode_utf8(a + b) == encode_utf8(a) + encode_utf8(b),
    decreases a.len(),
{
    if a.len() == 0 {
        assert(a + b =~= b);
        assert(encode_utf8(a) =~= Seq::<u8>::empty());
        assert(encode_utf8(a) + encode_utf8(b) =~= encode_utf8(b));
    } else {
        assert((a + b).drop_first() =~= a.drop_first() + b);
        assert((a + b)[0] == a[0]);
        lemma_encode_concat(a.drop_first(), b);
        assert(encode_utf8(a + b) =~= encode_utf8(a) + encode_utf8(b));
    }
}

/// The UTF-8 length of a text is the length of its encoding.
pub(crate) proof fn lemma_utf8_len_is_encoding(s: Seq<char>)
    ensures
        encode_utf8(s).len() == utf8_len(s),
    decreases s.len(),
{
    if s.len() > 0 {
        let p = s.drop_last();
        let c = s.last();
        lemma_utf8_len_is_encoding(p);
        assert(s =~= p + seq![c]);
        lemma_encode_concat(p, seq![c]);
        assert(seq![c].drop_first() =~= Seq::<char>::empty());
        assert(encode_utf8(seq![c]) =~= encode_scalar(c as u32) + encode_utf8(Seq::<char>::empty()));
        vstd::utf8::char_is_scalar(c);
        assert(encode_scalar(c as u32).len() == utf8_width(c));
    }
}

proof fn lemma_utf16_at_most_utf8(s: Seq<char>)
    ensures
        utf16_len(s) <= utf8_len(s),
    decreases s.len(),
{
    if s.len() > 0 {
        lemma_utf16_at_most_utf8(s.drop_last());
    }
}

pub(crate) fn utf8_width_exec(c: char) -> (w: usize)
    ensures
        w == utf8_width(c),
{
    let v = c as u32;
    if v <= 0x7f {
        1
    } else if v <= 0x7ff {
        2
    } else if v <= 0xffff {
        3
    } else {
        4
    }
}

pub(crate) fn utf16_width_exec(c: char) -> (w: usize)
    ensures
        w == utf16_width(c),
{
    if (c as u32) <= 0xffff {
        1
    } else {
        2
    }
}

/// The byte offset in `text` of the input method's UTF-16 offset `utf16`:
/// the start of the first character that does not fit before it.
pub fn utf8_offset(text: &str, utf16: usize) -> (r: usize)
    ensures
        r == spec_utf8_offset(text@, utf16 as int),
{
    let cs = chars_vec(text);
    let ghost s = text@;
    proof {
        lemma_utf8_len_is_encoding(s);
    }
    let total = text.as_bytes().len();
    let mut units: usize = 0;
    let mut offset: usize = 0;
    let mut i: usize = 0;
    while i < cs.len()
        invariant
            cs@ == s,
            s == text@,
            i <= s.len(),
            units == utf16_len(s.take(i as int)),
            offset == utf8_len(s.take(i as int)),
            units <= utf16,
            total == utf8_len(s),
        decreases cs.len() - i,
    {
        let w16 = utf16_width_exec(cs[i]);
        proof {
            lemma_take_step(s, i as int);
            assert(s.take(s.len() as int) =~= s);
            if i + 1 < s.len() {
                lemma_prefix_grows(s, i + 1, s.len() as int);
            }
        }
        if w16 > utf16 - units {
            assert(utf16_len(s.take(i + 1)) > utf16);
            proof {
                lemma_longest_utf16(s, utf16 as int, i as int);
            }
            return offset;
        }
        let w8 = utf8_width_exec(cs[i]);
        units = units + w16;
        offset = offset + w8;
        i += 1;
    }
    proof {
        lemma_longest_utf16(s, utf16 as int, i as int);
    }
    offset
}

/// The UTF-16 offset of byte offset `utf8` in `text`, which must fall on a
/// character boundary (or at or past the end).
pub fn utf16_offset(text: &str, utf8: usize) -> (r: usize)
    requires
        on_boundary(text@, utf8 as int),
    ensures
        r == spec_utf16_offset(text@, utf8 as int),
{
    let cs = chars_vec(text);
    let ghost s = text@;
    proof {
        lemma_utf8_len_is_encoding(s);
    }
    let total = text.as_bytes().len();
    let mut units: usize = 0;
    let mut offset: usize = 0;
    let mut i: usize = 0;
    while i < cs.len()
        invariant
            cs@ == s,
            s == text@,
            i <= s.len(),
            units == utf16_len(s.take(i as int)),
            offset == utf8_len(s.take(i as int)),
            offset <= utf8,
            total == utf8_len(s),
        decreases cs.len() - i,
    {
        let w8 = utf8_width_exec(cs[i]);
        proof {
            lemma_take_step(s, i as int);
            assert(s.take(s.len() as int) =~= s);
            if i + 1 < s.len() {
                lemma_prefix_grows(s, i + 1, s.len() as int);
            }
            lemma_utf16_at_most_utf8(s.take(i as int));
        }
        if w8 > utf8 - offset {
            assert(utf8_len(s.take(i + 1)) > utf8);
            proof {
                lemma_longest_utf8(s, utf8 as int, i as int);
            }
            return units;
        }
        let w16 = utf16_width_exec(cs[i]);
        units = units + w16;
        offset = offset + w8;
        i += 1;
    }
    proof {
        lemma_longest_utf8(s, utf8 as int, i as int);
    }
    units
}

/// A character boundary converted to UTF-16 and back is the same boundary.
pub proof fn law_boundary_round_trip(s: Seq<char>, k: int)
    requires
        0 <= k <= s.len(),
    ensures
        spec_utf8_offset(s, spec_utf16_offset(s, utf8_len(s.take(k)) as int) as int) == utf8_len(s.take(k)),
{
    if k < s.len() {
        lemma_take_step(s, k);
    }
    lemma_longest_utf8(s, utf8_len(s.take(k)) as int, k);
    lemma_longest_utf16(s, utf16_len(s.take(k)) as int, k);
}

/// A UTF-16 offset converted to bytes and back never moves past itself.
pub proof fn law_utf16_round_trip_stays_within(s: Seq<char>, units: int)
    requires
        units >= 0,
    ensures
        spec_utf16_offset(s, spec_utf8_offset(s, units) as int) <= units,
    decreases s.len(),
{
    let k = longest_within_utf16(s, units) as int;
    lemma_longest_is_prefix_utf16(s, units);
    if k < s.len() {
        lemma_take_step(s, k);
    }
    lemma_longest_utf8(s, utf8_len(s.take(k)) as int, k);
}

pub(crate) proof fn lemma_longest_is_prefix_utf16(s: Seq<char>, units: int)
    requires
        units >= 0,
    ensures
        longest_within_utf16(s, units) <= s.len(),
        utf16_len(s.take(longest_within_utf16(s, units) as int)) <= units,
    decreases s.len(),
{
    if !(utf16_len(s) <= units || s.len() == 0) {
        lemma_longest_is_prefix_utf16(s.drop_last(), units);
        let k = longest_within_utf16(s.drop_last(), units) as int;
        assert(s.drop_last().take(k) =~= s.take(k));
    } else {
        assert(s.take(s.len() as int) =~= s);
    }
}


/// A byte offset that ends a prefix of `k` characters lies on a boundary,
/// and the characters that fit within it are exactly those `k`.
pub proof fn lemma_boundary_index(s: Seq<char>, k: int)
    requires
        0 <= k <= s.len(),
    ensures
        longest_within_utf8(s, utf8_len(s.take(k)) as int) == k,
{
    if k < s.len() {
        lemma_take_step(s, k);
    }
    lemma_longest_utf8(s, utf8_len(s.take(k)) as int, k);
}

/// UTF-8 lengths add up over concatenation.
pub proof fn lemma_utf8_len_concat(a: Seq<char>, b: Seq<char>)
    ensures
        utf8_len(a + b) == utf8_len(a) + utf8_len(b),
    decreases b.len(),
{
    if b.len() == 0 {
        assert(a + b =~= a);
    } else {
        assert((a + b).drop_last() =~= a + b.drop_last());
        assert((a + b).last() == b.last());
        lemma_utf8_len_concat(a, b.drop_last());
    }
}

/// The UTF-16 budget that fits more characters never fits fewer.
pub proof fn lemma_longest_utf16_monotone(s: Seq<char>, a: int, b: int)
    requires
        0 <= a <= b,
    ensures
        longest_within_utf16(s, a) <= longest_within_utf16(s, b),
    decreases s.len(),
{
    if s.len() > 0 && utf16_len(s) > a {
        lemma_longest_is_prefix_utf16(s.drop_last(), a);
        if utf16_len(s) > b {
            lemma_longest_utf16_monotone(s.drop_last(), a, b);
        }
    }
}

/// The number of characters of `cs` that end at or before byte offset `col`.
pub fn char_index(cs: &Vec<char>, col: usize) -> (k: usize)
    ensures
        k == longest_within_utf8(cs@, col as int),
        k <= cs@.len(),
        utf8_len(cs@.take(k as int)) <= col,
{
    let ghost s = cs@;
    let mut offset: usize = 0;
    let mut i: usize = 0;
    while i < cs.len()
        invariant
            cs@ == s,
            i <= s.len(),
            offset == utf8_len(s.take(i as int)),
            offset <= col,
        decreases cs.len() - i,
    {
        let w8 = utf8_width_exec(cs[i]);
        proof {
            lemma_take_step(s, i as int);
        }
        if w8 > col - offset {
            proof {
                lemma_longest_utf8(s, col as int, i as int);
            }
            return i;
        }
        offset = offset + w8;
        i += 1;
    }
    proof {
        lemma_longest_utf8(s, col as int, i as int);
    }
    i
}

/// The byte offset in `text` after its first `k` characters.
pub fn byte_offset(text: &str, cs: &Vec<char>, k: usize) -> (b: usize)
    requires
        cs@ == text@,
        k <= cs@.len(),
    ensures
        b == utf8_len(cs@.take(k as int)),
{
    let ghost s = cs@;
    proof {
        lemma_utf8_len_is_encoding(s);
        assert(s.take(s.len() as int) =~= s);
    }
    let total = text.as_bytes().len();
    let mut offset: usize = 0;
    let mut i: usize = 0;
    while i < k
        invariant
            cs@ == s,
            k <= s.len(),
            i <= k,
            offset == utf8_len(s.take(i as int)),
            total == utf8_len(s),
            s.take(s.len() as int) == s,
        decreases k - i,
    {
        proof {
            lemma_take_step(s, i as int);
            if i + 1 < s.len() {
                lemma_prefix_grows(s, i + 1, s.len() as int);
            }
        }
        offset = offset + utf8_width_exec(cs[i]);
        i += 1;
    }
    offset
}
/// The last grapheme boundary at or before character `k`, where the
/// boundaries of clusters `c` are where each cluster starts, and their end.
pub open spec fn floor_boundary(c: Seq<Seq<char>>, k: int) -> int
    decreases c.len(),
{
    if concat_all(c).len() <= k || c.len() == 0 {
        concat_all(c).len() as int
    } else {
        floor_boundary(c.drop_last(), k)
    }
}

/// The first place at or after character `k` where a cluster of `c` starts,
/// or the end of the clusters when none does.
pub open spec fn ceil_start(c: Seq<Seq<char>>, k: int) -> int
    decreases c.len(),
{
    if c.len() == 0 {
        0
    } else if (concat_all(c.drop_last()).len() as int) < k {
        concat_all(c).len() as int
    } else {
        ceil_start(c.drop_last(), k)
    }
}

/// What an input method's replacement of the UTF-16 range `a..b` deletes
/// from the line `s` being edited: the range is widened to whole grapheme
/// clusters, and the deletion is given as its byte start and the number of
/// clusters it spans.
pub open spec fn spec_ime_deletion(s: Seq<char>, a: int, b: int) -> (int, int) {
    let c = extended_grapheme_clusters(s);
    let start = floor_boundary(c, longest_within_utf16(s, a) as int);
    let end = ceil_start(c, longest_within_utf16(s, b) as int);
    (utf8_len(s.take(start)) as int, extended_grapheme_clusters(s.subrange(start, end)).len() as int)
}

proof fn lemma_concat_step(c: Seq<Seq<char>>, i: int)
    requires
        0 < i <= c.len(),
    ensures
        concat_all(c.take(i)) == concat_all(c.take(i - 1)) + c[i - 1],
        c.take(i).drop_last() == c.take(i - 1),
{
    assert(c.take(i).drop_last() =~= c.take(i - 1));
    assert(c.take(i).last() == c[i - 1]);
}

proof fn lemma_floor_bounds(c: Seq<Seq<char>>, k: int)
    requires
        k >= 0,
    ensures
        0 <= floor_boundary(c, k) <= k,
        floor_boundary(c, k) <= concat_all(c).len(),
    decreases c.len(),
{
    if !(concat_all(c).len() <= k || c.len() == 0) {
        lemma_floor_bounds(c.drop_last(), k);
    }
}

proof fn lemma_ceil_bounds(c: Seq<Seq<char>>, k: int)
    requires
        k <= concat_all(c).len(),
    ensures
        k <= ceil_start(c, k) <= concat_all(c).len(),
    decreases c.len(),
{
    if c.len() > 0 && !((concat_all(c.drop_last()).len() as int) < k) {
        lemma_ceil_bounds(c.drop_last(), k);
    }
}

/// The grapheme-aligned deletion for an input method's edit of the UTF-16
/// range `a..b` of `current`: its byte start and how many clusters it spans.
pub fn ime_deletion(current: &str, a: usize, b: usize) -> (r: (usize, usize))
    requires
        a <= b,
    ensures
        r.0 == spec_ime_deletion(current@, a as int, b as int).0,
        r.1 == spec_ime_deletion(current@, a as int, b as int).1,
{
    let cs = chars_vec(current);
    let ghost s = cs@;
    let from = char_index(&cs, utf8_offset(current, a));
    let to = char_index(&cs, utf8_offset(current, b));
    proof {
        lemma_longest_is_prefix_utf16(s, a as int);
        lemma_longest_is_prefix_utf16(s, b as int);
        lemma_boundary_index(s, longest_within_utf16(s, a as int) as int);
        lemma_boundary_index(s, longest_within_utf16(s, b as int) as int);
        lemma_longest_utf16_monotone(s, a as int, b as int);
    }
    let clusters = grapheme_clusters(current);
    let ghost c = string_views(clusters@);
    let mut lens: Vec<usize> = Vec::new();
    let mut i: usize = 0;
    while i < clusters.len()
        invariant
            i <= clusters@.len(),
            c == string_views(clusters@),
            lens@.len() == i,
            forall|j: int| 0 <= j < i ==> lens@[j] == c[j].len(),
        decreases clusters.len() - i,
    {
        let g = chars_vec(clusters[i].as_str());
        lens.push(g.len());
        i += 1;
    }
    proof {
        assert(c.take(c.len() as int) =~= c);
    }
    // The last boundary at or before `from`, scanning back from the end.
    let mut n: usize = clusters.len();
    let mut total: usize = cs.len();
    while !(total <= from || n == 0)
        invariant
            n <= c.len(),
            lens@.len() == c.len(),
            forall|j: int| 0 <= j < c.len() ==> lens@[j] == c[j].len(),
            total == concat_all(c.take(n as int)).len(),
            floor_boundary(c.take(n as int), from as int) == floor_boundary(c, from as int),
        decreases n,
    {
        proof {
            lemma_concat_step(c, n as int);
        }
        total = total - lens[n - 1];
        n = n - 1;
    }
    let start = total;
    // The first cluster start at or after `to`, scanning back from the end.
    let mut m: usize = clusters.len();
    let mut end_total: usize = cs.len();
    let mut end: usize = 0;
    loop
        invariant
            m <= c.len(),
            lens@.len() == c.len(),
            forall|j: int| 0 <= j < c.len() ==> lens@[j] == c[j].len(),
            end_total == concat_all(c.take(m as int)).len(),
            ceil_start(c.take(m as int), to as int) == ceil_start(c, to as int),
        ensures
            end == ceil_start(c, to as int),
        decreases m,
    {
        if m == 0 {
            end = 0;
            break;
        }
        proof {
            lemma_concat_step(c, m as int);
        }
        let before = end_total - lens[m - 1];
        if before < to {
            end = end_total;
            break;
        }
        end_total = before;
        m = m - 1;
    }
    proof {
        lemma_floor_bounds(c, from as int);
        lemma_ceil_bounds(c, to as int);
    }
    let span = chars_between(&cs, start, end);
    let text = string_from_chars(span.as_slice());
    let spanned = grapheme_clusters(text.as_str());
    (byte_offset(current, &cs, start), spanned.len())
}

/// The last place at or before character `k` where a cluster of `c` starts
/// (the first cluster's start when none is).
pub open spec fn floor_start(c: Seq<Seq<char>>, k: int) -> int
    decreases c.len(),
{
    if c.len() == 0 {
        0
    } else if concat_all(c.drop_last()).len() <= k {
        concat_all(c.drop_last()).len() as int
    } else {
        floor_start(c.drop_last(), k)
    }
}

/// Where a click at byte `col` of `text` puts the cursor: on the last
/// grapheme cluster that starts at or before it, or, when `include_end`
/// (inserting), possibly at the end of the line.
pub open spec fn spec_grapheme_column(s: Seq<char>, col: int, include_end: bool) -> int {
    let c = extended_grapheme_clusters(s);
    let k = longest_within_utf8(s, col) as int;
    utf8_len(s.take(if include_end { floor_boundary(c, k) } else { floor_start(c, k) })) as int
}

proof fn lemma_floor_start_bounds(c: Seq<Seq<char>>, k: int)
    ensures
        0 <= floor_start(c, k) <= concat_all(c).len(),
    decreases c.len(),
{
    if c.len() > 0 {
        lemma_floor_start_bounds(c.drop_last(), k);
        assert(concat_all(c) == concat_all(c.drop_last()) + c.last());
    }
}

pub fn grapheme_column(text: &str, col: usize, include_end: bool) -> (r: usize)
    ensures
        r == spec_grapheme_column(text@, col as int, include_end),
{
    let cs = chars_vec(text);
    let ghost s = cs@;
    let k = char_index(&cs, col);
    let clusters = grapheme_clusters(text);
    let ghost c = string_views(clusters@);
    let mut lens: Vec<usize> = Vec::new();
    let mut i: usize = 0;
    while i < clusters.len()
        invariant
            i <= clusters@.len(),
            c == string_views(clusters@),
            lens@.len() == i,
            forall|j: int| 0 <= j < i ==> lens@[j] == c[j].len(),
        decreases clusters.len() - i,
    {
        let g = chars_vec(clusters[i].as_str());
        lens.push(g.len());
        i += 1;
    }
    proof {
        assert(c.take(c.len() as int) =~= c);
    }
    let mut n: usize = clusters.len();
    let mut total: usize = cs.len();
    let mut found: usize = 0;
    if include_end {
        while !(total <= k || n == 0)
            invariant
                n <= c.len(),
                lens@.len() == c.len(),
                forall|j: int| 0 <= j < c.len() ==> lens@[j] == c[j].len(),
                total == concat_all(c.take(n as int)).len(),
                floor_boundary(c.take(n as int), k as int) == floor_boundary(c, k as int),
            decreases n,
        {
            proof {
                lemma_concat_step(c, n as int);
            }
            total = total - lens[n - 1];
            n = n - 1;
        }
        found = total;
        proof {
            lemma_floor_bounds(c, k as int);
        }
    } else {
        loop
            invariant
                n <= c.len(),
                lens@.len() == c.len(),
                forall|j: int| 0 <= j < c.len() ==> lens@[j] == c[j].len(),
                total == concat_all(c.take(n as int)).len(),
                floor_start(c.take(n as int), k as int) == floor_start(c, k as int),
            ensures
                found == floor_start(c, k as int),
            decreases n,
        {
            if n == 0 {
                found = 0;
                break;
            }
            proof {
                lemma_concat_step(c, n as int);
            }
            let before = total - lens[n - 1];
            if before <= k {
                found = before;
                break;
            }
            total = before;
            n = n - 1;
        }
        proof {
            lemma_floor_start_bounds(c, k as int);
        }
    }
    byte_offset(text, &cs, found)
}

} // verus!
