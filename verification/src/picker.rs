//! The pickers that float over the workspace: the outline picker's query
//! line (cursor moves and deletions by grapheme cluster, input-method edits
//! by UTF-16 range) and its list of matching headings, and the wrapping step
//! that every picker uses to move its selection.
use vstd::prelude::*;

use crate::outline::{filter_outline, heading_titles, spec_filter_outline, Heading};
use crate::terminal::{concat_all, extended_grapheme_clusters, grapheme_clusters, string_views};
use crate::text::{chars_equal, chars_vec, string_from_chars};
use crate::text_input::{
    byte_offset, char_index, lemma_boundary_index, lemma_longest_utf16_monotone,
    lemma_longest_is_prefix_utf16, longest_within_utf16, longest_within_utf8, utf8_len, utf8_offset,
};

verus! {

/// The entry after (or, going up, before) `selected` in a list of `count`,
/// wrapping around at both ends.
pub open spec fn spec_step(selected: int, count: int, up: bool) -> int {
    if up {
        (selected + count - 1) % count
    } else {
        (selected + 1) % count
    }
}

pub fn step_selection(selected: usize, count: usize, up: bool) -> (r: usize)
    requires
        selected < count,
    ensures
        r == spec_step(selected as int, count as int, up),
        r < count,
{
    proof {
        vstd::arithmetic::div_mod::lemma_mod_self_0(count as int);
        if selected > 0 {
            vstd::arithmetic::div_mod::lemma_mod_add_multiples_vanish(selected - 1, count as int);
            vstd::arithmetic::div_mod::lemma_small_mod((selected - 1) as nat, count as nat);
        }
        vstd::arithmetic::div_mod::lemma_small_mod((count - 1) as nat, count as nat);
        if selected + 1 < count {
            vstd::arithmetic::div_mod::lemma_small_mod((selected + 1) as nat, count as nat);
        }
    }
    if up {
        if selected == 0 {
            count - 1
        } else {
            selected - 1
        }
    } else if selected + 1 == count {
        0
    } else {
        selected + 1
    }
}

/// Stepping up undoes stepping down, and the other way round.
pub proof fn law_step_back_undoes_step(selected: int, count: int, up: bool)
    requires
        0 <= selected < count,
    ensures
        spec_step(spec_step(selected, count, up), count, !up) == selected,
{
    let once = spec_step(selected, count, up);
    if up {
        if selected == 0 {
            assert(once == count - 1) by {
                vstd::arithmetic::div_mod::lemma_mod_self_0(count);
                vstd::arithmetic::div_mod::lemma_small_mod((count - 1) as nat, count as nat);
            }
        } else {
            assert(once == selected - 1) by {
                vstd::arithmetic::div_mod::lemma_mod_add_multiples_vanish(selected - 1, count);
                vstd::arithmetic::div_mod::lemma_small_mod((selected - 1) as nat, count as nat);
            }
        }
        vstd::arithmetic::div_mod::lemma_mod_self_0(count);
        vstd::arithmetic::div_mod::lemma_small_mod(selected as nat, count as nat);
    } else {
        if selected + 1 == count {
            vstd::arithmetic::div_mod::lemma_mod_self_0(count);
            assert(once == 0);
            vstd::arithmetic::div_mod::lemma_small_mod((count - 1) as nat, count as nat);
        } else {
            vstd::arithmetic::div_mod::lemma_small_mod((selected + 1) as nat, count as nat);
            assert(once == selected + 1);
            vstd::arithmetic::div_mod::lemma_mod_add_multiples_vanish(selected, count);
            vstd::arithmetic::div_mod::lemma_small_mod(selected as nat, count as nat);
        }
    }
}

/// Where the cursor lands moving left from character `k` of `s`: the start
/// of the last grapheme cluster of the text before it.
pub open spec fn previous_boundary(s: Seq<char>, k: int) -> int {
    let c = extended_grapheme_clusters(s.take(k));
    if c.len() == 0 {
        0
    } else {
        k - c.last().len()
    }
}

/// Where the cursor lands moving right from character `k` of `s`: the end
/// of the first grapheme cluster of the text after it.
pub open spec fn next_boundary(s: Seq<char>, k: int) -> int {
    let c = extended_grapheme_clusters(s.skip(k));
    if c.len() == 0 {
        k
    } else {
        k + c[0].len()
    }
}

proof fn lemma_concat_covers_first(c: Seq<Seq<char>>)
    requires
        c.len() > 0,
    ensures
        concat_all(c).len() >= c[0].len(),
    decreases c.len(),
{
    if c.len() > 1 {
        lemma_concat_covers_first(c.drop_last());
    } else {
        assert(c.drop_last() =~= Seq::<Seq<char>>::empty());
    }
}

/// The characters `cs[from..to]`.
pub fn chars_between(cs: &Vec<char>, from: usize, to: usize) -> (r: Vec<char>)
    requires
        from <= to <= cs@.len(),
    ensures
        r@ == cs@.subrange(from as int, to as int),
{
    let mut r: Vec<char> = Vec::new();
    let mut i: usize = from;
    while i < to
        invariant
            from <= i <= to <= cs@.len(),
            r@ == cs@.subrange(from as int, i as int),
        decreases to - i,
    {
        r.push(cs[i]);
        assert(r@ =~= cs@.subrange(from as int, i + 1));
        i += 1;
    }
    r
}

pub fn previous_boundary_exec(cs: &Vec<char>, k: usize) -> (r: usize)
    requires
        k <= cs@.len(),
    ensures
        r == previous_boundary(cs@, k as int),
        r <= k,
{
    let before = chars_between(cs, 0, k);
    assert(before@ =~= cs@.take(k as int));
    let prefix = string_from_chars(before.as_slice());
    let clusters = grapheme_clusters(prefix.as_str());
    if clusters.len() == 0 {
        0
    } else {
        let last = chars_vec(clusters[clusters.len() - 1].as_str());
        proof {
            let c = string_views(clusters@);
            assert(c.last() == clusters@.last()@);
            assert(concat_all(c) == concat_all(c.drop_last()) + c.last());
        }
        k - last.len()
    }
}

pub fn next_boundary_exec(cs: &Vec<char>, k: usize) -> (r: usize)
    requires
        k <= cs@.len(),
    ensures
        r == next_boundary(cs@, k as int),
        k <= r <= cs@.len(),
{
    let after = chars_between(cs, k, cs.len());
    assert(after@ =~= cs@.skip(k as int));
    let suffix = string_from_chars(after.as_slice());
    let clusters = grapheme_clusters(suffix.as_str());
    if clusters.len() == 0 {
        k
    } else {
        let first = chars_vec(clusters[0].as_str());
        proof {
            let c = string_views(clusters@);
            assert(c[0] == clusters@[0]@);
            lemma_concat_covers_first(c);
        }
        k + first.len()
    }
}

/// The text with its line breaks (`\r` and `\n`) removed: a query is one line.
pub open spec fn without_line_breaks(t: Seq<char>) -> Seq<char>
    decreases t.len(),
{
    if t.len() == 0 {
        Seq::empty()
    } else {
        let rest = without_line_breaks(t.drop_last());
        if t.last() == '\r' || t.last() == '\n' {
            rest
        } else {
            rest.push(t.last())
        }
    }
}

pub fn without_line_breaks_exec(text: &str) -> (r: Vec<char>)
    ensures
        r@ == without_line_breaks(text@),
{
    let cs = chars_vec(text);
    let mut r: Vec<char> = Vec::new();
    let mut i: usize = 0;
    while i < cs.len()
        invariant
            i <= cs@.len(),
            cs@ == text@,
            r@ == without_line_breaks(cs@.take(i as int)),
        decreases cs.len() - i,
    {
        assert(cs@.take(i + 1).drop_last() =~= cs@.take(i as int));
        if cs[i] != '\r' && cs[i] != '\n' {
            r.push(cs[i]);
        }
        i += 1;
    }
    assert(cs@.take(cs@.len() as int) =~= cs@);
    r
}

/// How many leading headings start at or before `row`.
pub open spec fn rows_through(hs: Seq<Heading>, row: int, i: int) -> int
    decreases hs.len() - i,
{
    if i < 0 || i >= hs.len() || hs[i].row > row {
        i
    } else {
        rows_through(hs, row, i + 1)
    }
}

/// What a key does to the query line, given the cursor `k` (in characters):
/// the new query and cursor, or `None` for a key the query line ignores.
pub open spec fn spec_query_key(s: Seq<char>, k: int, key: Seq<char>) -> Option<(Seq<char>, int)> {
    if key == seq!['l', 'e', 'f', 't'] {
        Some((s, previous_boundary(s, k)))
    } else if key == seq!['r', 'i', 'g', 'h', 't'] {
        Some((s, next_boundary(s, k)))
    } else if key == seq!['h', 'o', 'm', 'e'] {
        Some((s, 0))
    } else if key == seq!['e', 'n', 'd'] {
        Some((s, s.len() as int))
    } else if key == seq!['b', 'a', 'c', 'k', 's', 'p', 'a', 'c', 'e'] {
        let p = previous_boundary(s, k);
        Some((s.take(p) + s.skip(k), p))
    } else if key == seq!['d', 'e', 'l', 'e', 't', 'e'] {
        let n = next_boundary(s, k);
        Some((s.take(k) + s.skip(n), k))
    } else {
        None
    }
}

/// The keys that change the query text (and so refilter the list).
pub open spec fn erases(key: Seq<char>) -> bool {
    key == seq!['b', 'a', 'c', 'k', 's', 'p', 'a', 'c', 'e'] || key == seq!['d', 'e', 'l', 'e', 't', 'e']
}

/// The characters an input-method edit replaces: a UTF-16 range of the
/// query, or the empty span at the cursor.
pub open spec fn replaced_span(s: Seq<char>, k: int, range: Option<(usize, usize)>) -> (int, int) {
    match range {
        Some((a, b)) => (longest_within_utf16(s, a as int) as int, longest_within_utf16(s, b as int) as int),
        None => (k, k),
    }
}

/// The outline picker: a one-line query, the cursor in it (a byte offset),
/// the headings whose titles match, and the selected match.
pub struct OutlinePicker {
    pub query: String,
    pub col: usize,
    pub matches: Vec<usize>,
    pub selected: usize,
}

impl OutlinePicker {
    /// The cursor as a number of characters.
    pub open spec fn cursor(&self) -> int {
        longest_within_utf8(self.query@, self.col as int) as int
    }

    /// The cursor sits on a character boundary, and the selection, when
    /// anything matches, is one of the matches.
    pub open spec fn wf(&self) -> bool {
        &&& self.cursor() <= self.query@.len()
        &&& self.col == utf8_len(self.query@.take(self.cursor()))
        &&& (self.matches@.len() == 0 || self.selected < self.matches@.len())
    }

    fn set_cursor(&mut self, cs: &Vec<char>, k: usize)
        requires
            cs@ == old(self).query@,
            k <= cs@.len(),
            old(self).matches@.len() == 0 || old(self).selected < old(self).matches@.len(),
        ensures
            final(self).wf(),
            final(self).cursor() == k,
            final(self).query@ == old(self).query@,
            final(self).matches@ == old(self).matches@,
            final(self).selected == old(self).selected,
    {
        self.col = byte_offset(self.query.as_str(), cs, k);
        proof {
            lemma_boundary_index(cs@, k as int);
        }
    }

    fn set_query(&mut self, cs: Vec<char>, k: usize, headings: &Vec<Heading>)
        requires
            k <= cs@.len(),
        ensures
            final(self).wf(),
            final(self).query@ == cs@,
            final(self).cursor() == k,
            final(self).matches@ == spec_filter_outline(heading_titles(headings@), cs@),
            final(self).selected == 0,
    {
        self.query = string_from_chars(cs.as_slice());
        self.matches = filter_outline(headings, self.query.as_str());
        self.selected = 0;
        self.col = byte_offset(self.query.as_str(), &cs, k);
        proof {
            lemma_boundary_index(cs@, k as int);
        }
    }

    /// Opens the picker on every heading, with the last heading at or above
    /// the cursor's row selected.
    pub fn open(headings: &Vec<Heading>, row: usize) -> (p: OutlinePicker)
        ensures
            p.wf(),
            p.query@ == Seq::<char>::empty(),
            p.col == 0,
            p.matches@ == Seq::new(headings@.len(), |i: int| i as usize),
            p.selected == (if rows_through(headings@, row as int, 0) == 0 {
                0
            } else {
                rows_through(headings@, row as int, 0) - 1
            }),
    {
        let mut matches: Vec<usize> = Vec::new();
        let mut i: usize = 0;
        while i < headings.len()
            invariant
                i <= headings@.len(),
                matches@ == Seq::new(i as nat, |j: int| j as usize),
            decreases headings.len() - i,
        {
            matches.push(i);
            assert(matches@ =~= Seq::new((i + 1) as nat, |j: int| j as usize));
            i += 1;
        }
        let mut through: usize = 0;
        while through < headings.len() && headings[through].row <= row
            invariant
                through <= headings@.len(),
                rows_through(headings@, row as int, through as int) == rows_through(headings@, row as int, 0),
            decreases headings.len() - through,
        {
            through += 1;
        }
        let selected = if through == 0 {
            0
        } else {
            through - 1
        };
        let p = OutlinePicker { query: String::new(), col: 0, matches, selected };
        proof {
            assert(p.query@.take(0) =~= Seq::<char>::empty());
            lemma_boundary_index(p.query@, 0);
        }
        p
    }

    /// Moves the selection one match up or down, wrapping around.
    pub fn step(&mut self, up: bool)
        requires
            old(self).wf(),
        ensures
            final(self).wf(),
            final(self).query@ == old(self).query@,
            final(self).col == old(self).col,
            final(self).matches@ == old(self).matches@,
            final(self).selected == (if old(self).matches@.len() == 0 {
                old(self).selected as int
            } else {
                spec_step(old(self).selected as int, old(self).matches@.len() as int, up)
            }),
    {
        if self.matches.len() > 0 {
            self.selected = step_selection(self.selected, self.matches.len(), up);
        }
    }

    /// The heading that Enter jumps to: the selected match, if any.
    pub fn chosen(&self) -> (r: Option<usize>)
        ensures
            r == (if self.selected < self.matches@.len() {
                Some(self.matches@[self.selected as int])
            } else {
                None::<usize>
            }),
    {
        if self.selected < self.matches.len() {
            Some(self.matches[self.selected])
        } else {
            None
        }
    }

    /// Applies a cursor or deletion key to the query line; returns whether
    /// the key was one of them. Deleting refilters the headings.
    pub fn edit_key(&mut self, key: &str, headings: &Vec<Heading>) -> (handled: bool)
        requires
            old(self).wf(),
        ensures
            final(self).wf(),
            handled == spec_query_key(old(self).query@, old(self).cursor(), key@) is Some,
            match spec_query_key(old(self).query@, old(self).cursor(), key@) {
                None => final(self).query@ == old(self).query@ && final(self).col == old(self).col
                    && final(self).matches@ == old(self).matches@ && final(self).selected == old(self).selected,
                Some((q, k)) => final(self).query@ == q && final(self).cursor() == k
                    && (if erases(key@) {
                        final(self).matches@ == spec_filter_outline(heading_titles(headings@), q)
                            && final(self).selected == 0
                    } else {
                        final(self).matches@ == old(self).matches@ && final(self).selected == old(self).selected
                    }),
            },
    {
        let cs = chars_vec(self.query.as_str());
        let k = char_index(&cs, self.col);
        let kk = chars_vec(key);
        let ghost s = cs@;
        if chars_equal(kk.as_slice(), &['l', 'e', 'f', 't']) {
            let p = previous_boundary_exec(&cs, k);
            self.set_cursor(&cs, p);
            true
        } else if chars_equal(kk.as_slice(), &['r', 'i', 'g', 'h', 't']) {
            let n = next_boundary_exec(&cs, k);
            self.set_cursor(&cs, n);
            true
        } else if chars_equal(kk.as_slice(), &['h', 'o', 'm', 'e']) {
            self.set_cursor(&cs, 0);
            true
        } else if chars_equal(kk.as_slice(), &['e', 'n', 'd']) {
            self.set_cursor(&cs, cs.len());
            true
        } else if chars_equal(kk.as_slice(), &['b', 'a', 'c', 'k', 's', 'p', 'a', 'c', 'e']) {
            let p = previous_boundary_exec(&cs, k);
            let mut v = chars_between(&cs, 0, p);
            let mut tail = chars_between(&cs, k, cs.len());
            v.append(&mut tail);
            assert(v@ =~= s.take(p as int) + s.skip(k as int));
            self.set_query(v, p, headings);
            true
        } else if chars_equal(kk.as_slice(), &['d', 'e', 'l', 'e', 't', 'e']) {
            let n = next_boundary_exec(&cs, k);
            let mut v = chars_between(&cs, 0, k);
            let mut tail = chars_between(&cs, n, cs.len());
            v.append(&mut tail);
            assert(v@ =~= s.take(k as int) + s.skip(n as int));
            assert(v@.len() >= k);
            self.set_query(v, k, headings);
            true
        } else {
            false
        }
    }

    /// An input-method edit: replaces the UTF-16 `range` of the query (the
    /// empty span at the cursor when there is none) with `text` stripped of
    /// line breaks, leaves the cursor after it, and refilters the headings.
    pub fn replace(&mut self, range: Option<(usize, usize)>, text: &str, headings: &Vec<Heading>)
        requires
            old(self).wf(),
            match range {
                Some((a, b)) => a <= b,
                None => true,
            },
        ensures
            final(self).wf(),
            ({
                let s = old(self).query@;
                let (start, end) = replaced_span(s, old(self).cursor(), range);
                let t = without_line_breaks(text@);
                &&& final(self).query@ == s.take(start) + t + s.skip(end)
                &&& final(self).cursor() == start + t.len()
            }),
            final(self).matches@ == spec_filter_outline(heading_titles(headings@), final(self).query@),
            final(self).selected == 0,
    {
        let cs = chars_vec(self.query.as_str());
        let ghost s = cs@;
        let k = char_index(&cs, self.col);
        let (start, end) = match range {
            Some((a, b)) => {
                let start = char_index(&cs, utf8_offset(self.query.as_str(), a));
                let end = char_index(&cs, utf8_offset(self.query.as_str(), b));
                proof {
                    lemma_longest_is_prefix_utf16(s, a as int);
                    lemma_longest_is_prefix_utf16(s, b as int);
                    lemma_boundary_index(s, longest_within_utf16(s, a as int) as int);
                    lemma_boundary_index(s, longest_within_utf16(s, b as int) as int);
                    lemma_longest_utf16_monotone(s, a as int, b as int);
                }
                (start, end)
            },
            None => (k, k),
        };
        let t = without_line_breaks_exec(text);
        let mut v = chars_between(&cs, 0, start);
        let mut middle = t.clone();
        let mut tail = chars_between(&cs, end, cs.len());
        let ghost tv = t@;
        v.append(&mut middle);
        v.append(&mut tail);
        assert(v@ =~= s.take(start as int) + tv + s.skip(end as int));
        let total = v.len();
        assert(start + tv.len() <= total);
        self.set_query(v, start + t.len(), headings);
    }
}

} // verus!
