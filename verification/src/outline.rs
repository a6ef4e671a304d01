//! Heading outline: document-local fragment identifiers and their resolution.
use vstd::prelude::*;
use vstd::string::{StrSliceExecFns, StringExecFns};
use vstd::utf8::{decode_utf8, encode_utf8, valid_utf8};

use crate::image_assets::{percent_decode, percent_decode_exec, string_from_utf8};
use crate::markdown::{markdown_events, parse_markdown_events, line_starts, row_count, row_of, source_row, starts_ok, MdEvent, MdTag, MdTagEnd, SourceEvent};
use crate::text::chars_vec;

verus! {

/// A parsed heading and its document-local fragment identifier.
#[derive(Clone, Debug, PartialEq, Eq)]
pub struct Heading {
    /// Zero-based physical source row, including quote/list prefixes.
    pub row: usize,
    pub level: u8,
    pub title: String,
    /// Fragment identifier without the leading `#` or URL encoding.
    pub anchor: String,
}

/// The row of the first heading at or after `i` whose anchor is `anchor`.
pub open spec fn first_anchor_row(hs: Seq<Heading>, anchor: Seq<char>, i: int) -> Option<usize>
    decreases hs.len() - i,
{
    if i < 0 || i >= hs.len() {
        None
    } else if hs[i].anchor@ == anchor {
        Some(hs[i].row)
    } else {
        first_anchor_row(hs, anchor, i + 1)
    }
}

proof fn lemma_first_anchor_row(hs: Seq<Heading>, anchor: Seq<char>, i: int)
    requires
        0 <= i <= hs.len(),
    ensures
        first_anchor_row(hs, anchor, i) matches Some(row) ==> exists|k: int|
            i <= k < hs.len() && (#[trigger] hs[k]).anchor@ == anchor && hs[k].row == row && forall|j: int|
                i <= j < k ==> (#[trigger] hs[j]).anchor@ != anchor,
        first_anchor_row(hs, anchor, i) is None ==> forall|k: int|
            i <= k < hs.len() ==> (#[trigger] hs[k]).anchor@ != anchor,
    decreases hs.len() - i,
{
    if i < hs.len() && hs[i].anchor@ != anchor {
        lemma_first_anchor_row(hs, anchor, i + 1);
        if let Some(row) = first_anchor_row(hs, anchor, i + 1) {
            let k = choose|k: int|
                i + 1 <= k < hs.len() && (#[trigger] hs[k]).anchor@ == anchor && hs[k].row == row && forall|j: int|
                    i + 1 <= j < k ==> (#[trigger] hs[j]).anchor@ != anchor;
            assert(forall|j: int| i <= j < k ==> (#[trigger] hs[j]).anchor@ != anchor);
        }
    } else if i < hs.len() {
        assert(forall|j: int| i <= j < i ==> (#[trigger] hs[j]).anchor@ != anchor);
    }
}

/// A fragment resolves to the row of the first heading whose anchor is the
/// (decoded) fragment, compared exactly; it resolves to nothing when no
/// heading has that anchor.
pub proof fn law_first_matching_anchor_wins(hs: Seq<Heading>, anchor: Seq<char>)
    ensures
        first_anchor_row(hs, anchor, 0) matches Some(row) ==> exists|k: int|
            0 <= k < hs.len() && (#[trigger] hs[k]).anchor@ == anchor && hs[k].row == row && forall|j: int|
                0 <= j < k ==> (#[trigger] hs[j]).anchor@ != anchor,
        first_anchor_row(hs, anchor, 0) is None <==> forall|k: int|
            0 <= k < hs.len() ==> (#[trigger] hs[k]).anchor@ != anchor,
{
    lemma_first_anchor_row(hs, anchor, 0);
    if first_anchor_row(hs, anchor, 0) is Some {
        let row = first_anchor_row(hs, anchor, 0)->0;
        let k = choose|k: int|
            0 <= k < hs.len() && (#[trigger] hs[k]).anchor@ == anchor && hs[k].row == row && forall|j: int|
                0 <= j < k ==> (#[trigger] hs[j]).anchor@ != anchor;
        assert(hs[k].anchor@ == anchor);
    }
}

pub open spec fn strip_hash(s: Seq<char>) -> Seq<char> {
    if s.len() > 0 && s[0] == '#' {
        s.drop_first()
    } else {
        s
    }
}

/// Resolve a local fragment to its heading's source row. Fragment identifiers
/// are case-sensitive; percent escapes are decoded once and `+` is not a space.
/// Empty fragments, invalid escapes/UTF-8 and unknown anchors do not resolve.
pub open spec fn spec_resolve_anchor(hs: Seq<Heading>, fragment: Seq<char>) -> Option<usize> {
    let f = strip_hash(fragment);
    if f.len() == 0 {
        None
    } else if !f.contains('%') {
        first_anchor_row(hs, f, 0)
    } else {
        match percent_decode(encode_utf8(f)) {
            Some(d) => if valid_utf8(d) {
                first_anchor_row(hs, decode_utf8(d), 0)
            } else {
                None
            },
            None => None,
        }
    }
}

fn find_anchor(headings: &[Heading], anchor: &String) -> (r: Option<usize>)
    ensures
        r == first_anchor_row(headings@, anchor@, 0),
{
    let mut i: usize = 0;
    while i < headings.len()
        invariant
            i <= headings@.len(),
            first_anchor_row(headings@, anchor@, i as int) == first_anchor_row(
                headings@,
                anchor@,
                0,
            ),
        decreases headings.len() - i,
    {
        if headings[i].anchor == *anchor {
            return Some(headings[i].row);
        }
        i += 1;
    }
    None
}

pub fn resolve_anchor(headings: &[Heading], fragment: &str) -> (r: Option<usize>)
    ensures
        r == spec_resolve_anchor(headings@, fragment@),
{
    let cs = chars_vec(fragment);
    let start: usize = if cs.len() > 0 && cs[0] == '#' {
        1
    } else {
        0
    };
    let f = fragment.substring_char(start, cs.len());
    assert(f@ =~= strip_hash(fragment@));
    let fc = chars_vec(f);
    if fc.len() == 0 {
        return None;
    }
    let mut has_percent = false;
    let mut i: usize = 0;
    while i < fc.len()
        invariant
            i <= fc@.len(),
            has_percent == (exists|k: int| 0 <= k < i && fc@[k] == '%'),
        decreases fc.len() - i,
    {
        if fc[i] == '%' {
            has_percent = true;
        }
        i += 1;
    }
    assert(has_percent == f@.contains('%'));
    if !has_percent {
        let anchor = String::from_str(f);
        return find_anchor(headings, &anchor);
    }
    let bytes = f.as_bytes();
    assert(bytes@.subrange(0, bytes@.len() as int) =~= bytes@);
    let decoded = match percent_decode_exec(bytes, 0, bytes.len()) {
        Some(d) => d,
        None => return None,
    };
    let text = match string_from_utf8(decoded) {
        Some(t) => t,
        None => return None,
    };
    find_anchor(headings, &text)
}

} // verus!

verus! {

// ---------------------------------------------------------------------------
// Anchors.

/// `str::to_lowercase`.
pub uninterp spec fn lowercase(s: Seq<char>) -> Seq<char>;

/// `str::to_lowercase`; the contract names its result.
#[verifier::external_body]
fn to_lowercase(s: &str) -> (r: String)
    ensures
        r@ == lowercase(s@),
{
    s.to_lowercase()
}

/// `regex`: `text` with every match of `pattern` removed, or nothing when
/// `pattern` is not a valid expression.
pub uninterp spec fn without_matches(pattern: Seq<char>, text: Seq<char>) -> Option<Seq<char>>;

/// `Regex::new(pattern)` and `Regex::replace_all(text, "")`; the contract
/// names the result, and an invalid pattern gives none.
#[verifier::external_body]
fn remove_matches(pattern: &str, text: &str) -> (r: Option<String>)
    ensures
        crate::image_assets::opt_string_view(r) == without_matches(pattern@, text@),
{
    match regex::Regex::new(pattern) {
        Ok(re) => Some(re.replace_all(text, "").into_owned()),
        Err(_) => None,
    }
}

/// Everything but Unicode letters, combining marks, numbers, `_`, `-` and
/// whitespace: what slugs drop.
pub open spec fn slug_punctuation() -> Seq<char> {
    "[^\\p{L}\\p{M}\\p{N}_\\-\\s]"@
}

fn slug_punctuation_exec() -> (r: &'static str)
    ensures
        r@ == slug_punctuation(),
{
    "[^\\p{L}\\p{M}\\p{N}_\\-\\s]"
}

/// The GitHub-style slug of a heading title: lowercased, punctuation dropped,
/// whitespace turned into `-`.
pub open spec fn slug(title: Seq<char>) -> Seq<char> {
    let lower = lowercase(title);
    let stripped = match without_matches(slug_punctuation(), lower) {
        Some(s) => s,
        None => lower,
    };
    stripped.map_values(|c: char| if crate::text::is_unicode_whitespace(c) { '-' } else { c })
}

/// The `k`-th alternative to an anchor already taken.
pub open spec fn candidate(base: Seq<char>, k: nat) -> Seq<char> {
    base + seq!['-'] + crate::text::decimal(k)
}

pub open spec fn keys(m: Seq<(Seq<char>, usize)>) -> Seq<Seq<char>> {
    m.map_values(|e: (Seq<char>, usize)| e.0)
}

/// The first alternative from `start` on that is not taken.
pub open spec fn first_free(m: Seq<(Seq<char>, usize)>, base: Seq<char>, start: nat) -> nat {
    choose|k: nat|
        k >= start && !keys(m).contains(candidate(base, k)) && forall|j: nat|
            start <= j < k ==> keys(m).contains(#[trigger] candidate(base, j))
}

/// The anchor for `title` given the anchors taken so far (with, for each
/// base, the last suffix used), and the anchors after it is taken.
pub open spec fn spec_unique_anchor(m: Seq<(Seq<char>, usize)>, title: Seq<char>) -> (
    Seq<char>,
    Seq<(Seq<char>, usize)>,
) {
    let base = slug(title);
    if !keys(m).contains(base) {
        (base, m.push((base, 0usize)))
    } else {
        let i = keys(m).index_of(base);
        let k = first_free(m, base, (m[i].1 + 1) as nat);
        let c = candidate(base, k);
        (c, m.update(i, (base, k as usize)).push((c, 0usize)))
    }
}

/// Taken anchors: no anchor twice, and every suffix up to a base's last one
/// taken as well.
pub open spec fn anchors_ok(m: Seq<(Seq<char>, usize)>) -> bool {
    &&& keys(m).no_duplicates()
    &&& forall|i: int, j: nat|
        0 <= i < m.len() && 1 <= j <= m[i].1 ==> keys(m).contains(#[trigger] candidate(m[i].0, j))
}

proof fn lemma_decimal_len(n: nat)
    ensures
        crate::text::decimal(n).len() >= 1,
        n >= 10 ==> crate::text::decimal(n).len() >= 2,
    decreases n,
{
    if n >= 10 {
        lemma_decimal_len(n / 10);
    }
}

proof fn lemma_decimal_injective(a: nat, b: nat)
    requires
        crate::text::decimal(a) == crate::text::decimal(b),
    ensures
        a == b,
    decreases a,
{
    lemma_decimal_len(a);
    lemma_decimal_len(b);
    let da = crate::text::decimal(a);
    let db = crate::text::decimal(b);
    if a < 10 && b < 10 {
        assert(da[0] == db[0]);
    } else if a < 10 {
        assert(da.len() == 1);
    } else if b < 10 {
        assert(db.len() == 1);
    } else {
        assert(da.last() == db.last());
        assert(da.drop_last() =~= crate::text::decimal(a / 10));
        assert(db.drop_last() =~= crate::text::decimal(b / 10));
        lemma_decimal_injective(a / 10, b / 10);
    }
}

proof fn lemma_candidate_injective(base: Seq<char>, a: nat, b: nat)
    requires
        candidate(base, a) == candidate(base, b),
    ensures
        a == b,
{
    let n = base.len() + 1;
    assert(candidate(base, a).subrange(n as int, candidate(base, a).len() as int) =~= crate::text::decimal(a));
    assert(candidate(base, b).subrange(n as int, candidate(base, b).len() as int) =~= crate::text::decimal(b));
    lemma_decimal_injective(a, b);
}

/// A heading's anchor is its slug when that is free, and otherwise the slug
/// followed by `-` and a number of at least 1, which is never the slug itself.
pub proof fn law_anchor_is_slug_or_numbered(m: Seq<(Seq<char>, usize)>, title: Seq<char>)
    requires
        anchors_ok(m),
    ensures
        ({
            let (r, _) = spec_unique_anchor(m, title);
            let base = slug(title);
            &&& (r == base) == !keys(m).contains(base)
            &&& (keys(m).contains(base) ==> exists|k: nat| k >= 1 && r == #[trigger] candidate(base, k))
        }),
{
    let base = slug(title);
    if keys(m).contains(base) {
        let i = keys(m).index_of(base);
        let start = (m[i].1 + 1) as nat;
        assert(m[i].0 == keys(m)[i]);
        assert forall|j: nat| 1 <= j < start implies keys(m).contains(#[trigger] candidate(base, j)) by {
            assert(keys(m).contains(candidate(m[i].0, j)));
        }
        lemma_free_candidate_exists(m, base, start, start);
        let k = first_free(m, base, start);
        assert(k >= 1);
        lemma_decimal_len(k);
        assert(candidate(base, k).len() > base.len());
    }
}

/// Searching upwards from `k` finds a free alternative: were every one up to
/// `k` taken, there would be at least `k` anchors.
proof fn lemma_free_candidate_exists(m: Seq<(Seq<char>, usize)>, base: Seq<char>, start: nat, k: nat)
    requires
        1 <= start <= k,
        forall|j: nat| 1 <= j < k ==> keys(m).contains(#[trigger] candidate(base, j)),
    ensures
        exists|f: nat|
            f >= start && !keys(m).contains(candidate(base, f)) && forall|j: nat|
                start <= j < f ==> keys(m).contains(#[trigger] candidate(base, j)),
    decreases m.len() + 1 - k,
{
    if !keys(m).contains(candidate(base, k)) {
        assert(k >= start && !keys(m).contains(candidate(base, k)) && forall|j: nat|
            start <= j < k ==> keys(m).contains(#[trigger] candidate(base, j)));
    } else {
        lemma_taken_bound(keys(m), base, k);
        lemma_free_candidate_exists(m, base, start, k + 1);
    }
}

/// If the alternatives `1..=m` of a base are all among `ks`, there are at
/// least `m` anchors.
proof fn lemma_taken_bound(ks: Seq<Seq<char>>, base: Seq<char>, m: nat)
    requires
        forall|j: nat| 1 <= j <= m ==> ks.contains(#[trigger] candidate(base, j)),
    ensures
        m <= ks.len(),
{
    let x = vstd::set_lib::set_int_range(1, m as int + 1);
    vstd::set_lib::lemma_int_range(1, m as int + 1);
    let f = |j: int| candidate(base, j as nat);
    assert forall|p: int, q: int| x.contains(p) && x.contains(q) && #[trigger] f(p) == #[trigger] f(q) implies p
        == q by {
        lemma_candidate_injective(base, p as nat, q as nat);
    }
    let y = x.map(f);
    vstd::set_lib::lemma_map_size(x, y, f);
    assert forall|c: Seq<char>| y.contains(c) implies ks.to_set().contains(c) by {
        let p = choose|p: int| x.contains(p) && f(p) == c;
        assert(ks.contains(candidate(base, p as nat)));
    }
    ks.lemma_cardinality_of_set();
    vstd::set_lib::lemma_len_subset(y, ks.to_set());
}

} // verus!

verus! {

pub open spec fn anchors_view(v: Seq<(String, usize)>) -> Seq<(Seq<char>, usize)> {
    v.map_values(|e: (String, usize)| (e.0@, e.1))
}

fn key_index(anchors: &Vec<(String, usize)>, key: &String) -> (r: Option<usize>)
    requires
        keys(anchors_view(anchors@)).no_duplicates(),
    ensures
        match r {
            Some(i) => i < anchors@.len() && keys(anchors_view(anchors@)).contains(key@) && keys(
                anchors_view(anchors@),
            ).index_of(key@) == i && anchors@[i as int].0@ == key@,
            None => !keys(anchors_view(anchors@)).contains(key@),
        },
{
    let ghost ks = keys(anchors_view(anchors@));
    let mut i: usize = 0;
    while i < anchors.len()
        invariant
            i <= anchors@.len(),
            ks == keys(anchors_view(anchors@)),
            ks.no_duplicates(),
            forall|k: int| 0 <= k < i ==> ks[k] != key@,
        decreases anchors.len() - i,
    {
        if anchors[i].0 == *key {
            proof {
                assert(ks[i as int] == key@);
                let j = ks.index_of(key@);
                assert(0 <= j < ks.len() && ks[j] == key@);
                assert(j == i) by {
                    if j != i {
                        assert(ks[j] == ks[i as int]);
                    }
                }
            }
            return Some(i);
        }
        i += 1;
    }
    None
}

fn candidate_exec(base: &String, k: usize) -> (r: String)
    ensures
        r@ == candidate(base@, k as nat),
{
    let mut s = base.clone();
    crate::text::push_char(&mut s, '-');
    let digits = crate::text::decimal_exec(k as u64);
    let d = crate::text::string_from_chars(digits.as_slice());
    s.append(d.as_str());
    s
}

/// The anchor for a heading titled `title`: its slug, or when the slug is
/// taken, the slug with the first free numeric suffix after the last one
/// used for it. The anchor is recorded as taken.
pub fn unique_anchor(title: &str, anchors: &mut Vec<(String, usize)>) -> (r: String)
    requires
        anchors_ok(anchors_view(old(anchors)@)),
        old(anchors)@.len() + 2 < usize::MAX,
    ensures
        (r@, anchors_view(final(anchors)@)) == spec_unique_anchor(anchors_view(old(anchors)@), title@),
        anchors_ok(anchors_view(final(anchors)@)),
        !keys(anchors_view(old(anchors)@)).contains(r@),
        keys(anchors_view(final(anchors)@)) == keys(anchors_view(old(anchors)@)).push(r@),
{
    let ghost m = anchors_view(anchors@);
    let lower = to_lowercase(title);
    let stripped = match remove_matches(slug_punctuation_exec(), lower.as_str()) {
        Some(s) => s,
        None => lower,
    };
    let cs = chars_vec(stripped.as_str());
    let mut base = String::new();
    let mut i: usize = 0;
    while i < cs.len()
        invariant
            i <= cs@.len(),
            base@ == cs@.take(i as int).map_values(
                |c: char| if crate::text::is_unicode_whitespace(c) { '-' } else { c },
            ),
        decreases cs.len() - i,
    {
        let c = cs[i];
        crate::text::push_char(&mut base, if crate::text::is_whitespace(c) { '-' } else { c });
        assert(cs@.take(i + 1) =~= cs@.take(i as int).push(c));
        assert(base@ =~= cs@.take(i + 1).map_values(
            |c: char| if crate::text::is_unicode_whitespace(c) { '-' } else { c },
        ));
        i += 1;
    }
    assert(cs@.take(cs@.len() as int) =~= cs@);
    assert(base@ == slug(title@));
    match key_index(anchors, &base) {
        None => {
            anchors.push((base.clone(), 0));
            proof {
                assert(anchors_view(anchors@) =~= m.push((base@, 0usize)));
                assert(keys(anchors_view(anchors@)) =~= keys(m).push(base@));
                assert forall|i: int, j: nat|
                    0 <= i < anchors_view(anchors@).len() && 1 <= j <= anchors_view(anchors@)[i].1 implies keys(
                        anchors_view(anchors@),
                    ).contains(#[trigger] candidate(anchors_view(anchors@)[i].0, j)) by {
                    assert(i < m.len());
                    assert(keys(m).contains(candidate(m[i].0, j)));
                    let w = keys(m).index_of(candidate(m[i].0, j));
                    assert(keys(anchors_view(anchors@))[w] == candidate(m[i].0, j));
                }
            }
            base
        },
        Some(idx) => {
            let start = anchors[idx].1;
            let ghost s = start as nat;
            proof {
                lemma_taken_bound(keys(m), base@, s);
            }
            let mut k = start + 1;
            let mut c = candidate_exec(&base, k);
            loop
                invariant
                    s < k <= m.len() + 1,
                    c@ == candidate(base@, k as nat),
                    m == anchors_view(anchors@),
                    anchors_ok(m),
                    idx < m.len(),
                    m[idx as int] == (base@, start),
                    forall|j: nat| 1 <= j < k ==> keys(m).contains(#[trigger] candidate(base@, j)),
                    m.len() + 2 < usize::MAX,
                ensures
                    !keys(m).contains(candidate(base@, k as nat)),
                decreases m.len() + 1 - k,
            {
                match key_index(anchors, &c) {
                    None => {
                        break ;
                    },
                    Some(_) => {
                        proof {
                            lemma_taken_bound(keys(m), base@, k as nat);
                        }
                        k = k + 1;
                        c = candidate_exec(&base, k);
                    },
                }
            }
            let ghost kk = k as nat;
            proof {
                let f = first_free(m, base@, s + 1);
                assert(kk >= s + 1 && !keys(m).contains(candidate(base@, kk)) && forall|j: nat|
                    s + 1 <= j < kk ==> keys(m).contains(#[trigger] candidate(base@, j)));
                assert(f >= s + 1 && !keys(m).contains(candidate(base@, f)) && forall|j: nat|
                    s + 1 <= j < f ==> keys(m).contains(#[trigger] candidate(base@, j)));
                if f < kk {
                    assert(keys(m).contains(candidate(base@, f)));
                }
                if kk < f {
                    assert(keys(m).contains(candidate(base@, kk)));
                }
                assert(keys(m).index_of(base@) == idx);
            }
            let b = anchors[idx].0.clone();
            anchors.set(idx, (b, k));
            anchors.push((c.clone(), 0));
            proof {
                let m2 = m.update(idx as int, (base@, k)).push((c@, 0usize));
                assert(anchors_view(anchors@) =~= m2);
                assert(keys(m2) =~= keys(m).push(c@));
                assert forall|i: int, j: nat|
                    0 <= i < m2.len() && 1 <= j <= m2[i].1 implies keys(m2).contains(
                        #[trigger] candidate(m2[i].0, j),
                    ) by {
                    if i == idx {
                        if j < k {
                            let w = keys(m).index_of(candidate(base@, j));
                            assert(keys(m2)[w] == candidate(base@, j));
                        } else {
                            assert(keys(m2)[m.len() as int] == c@);
                        }
                    } else {
                        assert(keys(m).contains(candidate(m[i].0, j)));
                        let w = keys(m).index_of(candidate(m[i].0, j));
                        assert(keys(m2)[w] == candidate(m[i].0, j));
                    }
                }
            }
            c
        },
    }
}

} // verus!

verus! {

// ---------------------------------------------------------------------------
// Headings.

/// A heading as seen by the outline: row, level, title and anchor.
pub open spec fn heading_view(h: Heading) -> (usize, u8, Seq<char>, Seq<char>) {
    (h.row, h.level, h.title@, h.anchor@)
}

pub open spec fn headings_view(v: Seq<Heading>) -> Seq<(usize, u8, Seq<char>, Seq<char>)> {
    v.map_values(|h: Heading| heading_view(h))
}

/// The outline between events: the headings so far, the open heading's row,
/// level and title, and the anchors taken.
pub struct OutlineV {
    pub result: Seq<(usize, u8, Seq<char>, Seq<char>)>,
    pub current: Option<(usize, u8, Seq<char>)>,
    pub anchors: Seq<(Seq<char>, usize)>,
}

pub open spec fn outline_step(b: Seq<u8>, o: OutlineV, e: SourceEvent) -> OutlineV {
    match e.event {
        MdEvent::Start(MdTag::Heading(level)) => OutlineV {
            current: Some((row_of(b, e.start as int) as usize, level, Seq::empty())),
            ..o
        },
        MdEvent::End(MdTagEnd::Heading) => match o.current {
            Some((row, level, title)) => {
                let (anchor, anchors) = spec_unique_anchor(o.anchors, title);
                OutlineV {
                    result: o.result.push((row, level, title, anchor)),
                    current: None,
                    anchors,
                }
            },
            None => o,
        },
        MdEvent::Text(t) => match o.current {
            Some((row, level, title)) => OutlineV { current: Some((row, level, title + t@)), ..o },
            None => o,
        },
        MdEvent::Code(t) => match o.current {
            Some((row, level, title)) => OutlineV { current: Some((row, level, title + t@)), ..o },
            None => o,
        },
        MdEvent::SoftBreak => match o.current {
            Some((row, level, title)) => OutlineV { current: Some((row, level, title.push(' '))), ..o },
            None => o,
        },
        MdEvent::HardBreak => match o.current {
            Some((row, level, title)) => OutlineV { current: Some((row, level, title.push(' '))), ..o },
            None => o,
        },
        _ => o,
    }
}

pub open spec fn outline_fold(b: Seq<u8>, events: Seq<SourceEvent>, n: int) -> OutlineV
    decreases n,
{
    if n <= 0 {
        OutlineV { result: Seq::empty(), current: None, anchors: Seq::empty() }
    } else {
        outline_step(b, outline_fold(b, events, n - 1), events[n - 1])
    }
}

/// The headings of `source`, from its parse events: headings inside code are
/// no headings, and headings inside containers keep their physical row.
pub open spec fn spec_headings(b: Seq<u8>, events: Seq<SourceEvent>) -> Seq<(usize, u8, Seq<char>, Seq<char>)> {
    outline_fold(b, events, events.len() as int).result
}

pub open spec fn anchors_distinct(hs: Seq<(usize, u8, Seq<char>, Seq<char>)>) -> bool {
    forall|i: int, j: int| 0 <= i < j < hs.len() ==> #[trigger] hs[i].3 != #[trigger] hs[j].3
}

fn append_str(s: &mut String, t: &String)
    ensures
        final(s)@ == old(s)@ + t@,
{
    s.append(t.as_str());
}

/// The headings of a Markdown document, with their anchors: the document
/// is parsed, then its headings are read. `None` only when the parse gives
/// more events than can be counted.
pub fn outline(source: &str) -> (r: Option<Vec<Heading>>)
    ensures
        match r {
            Some(hs) => markdown_events(source@).len() + 3 < usize::MAX && headings_view(hs@)
                == spec_headings(encode_utf8(source@), markdown_events(source@)) && anchors_distinct(
                headings_view(hs@),
            ),
            None => markdown_events(source@).len() + 3 >= usize::MAX,
        },
{
    let events = parse_markdown_events(source);
    if events.len() >= usize::MAX - 3 {
        return None;
    }
    Some(headings(source, &events))
}

/// Extract headings from the same Markdown dialect as the editor projection,
/// given the parse events of `source` with their byte ranges, in order.
/// Every heading gets an anchor no other heading has.
pub fn headings(source: &str, events: &Vec<SourceEvent>) -> (r: Vec<Heading>)
    requires
        events@.len() + 3 < usize::MAX,
    ensures
        headings_view(r@) == spec_headings(encode_utf8(source@), events@),
        anchors_distinct(headings_view(r@)),
{
    let b = source.as_bytes();
    let starts = line_starts(b);
    let mut result: Vec<Heading> = Vec::new();
    let mut current: Option<Heading> = None;
    let mut anchors: Vec<(String, usize)> = Vec::new();
    let mut i: usize = 0;
    assert(anchors_view(anchors@) =~= Seq::empty());
    assert(keys(Seq::<(Seq<char>, usize)>::empty()) =~= Seq::empty());
    while i < events.len()
        invariant
            i <= events@.len(),
            events@.len() + 3 < usize::MAX,
            starts_ok(b@, starts@),
            starts@.len() == row_count(b@),
            b@ == encode_utf8(source@),
            anchors_ok(anchors_view(anchors@)),
            anchors@.len() <= i,
            result@.len() <= i,
            ({
                let o = outline_fold(b@, events@, i as int);
                &&& headings_view(result@) == o.result
                &&& anchors_view(anchors@) == o.anchors
                &&& match current {
                    Some(h) => o.current == Some((h.row, h.level, h.title@)),
                    None => o.current is None,
                }
            }),
            forall|k: int| 0 <= k < result@.len() ==> keys(anchors_view(anchors@)).contains(#[trigger] result@[k].anchor@),
            anchors_distinct(headings_view(result@)),
        decreases events.len() - i,
    {
        let ghost o = outline_fold(b@, events@, i as int);
        let e = &events[i];
        match &e.event {
            MdEvent::Start(MdTag::Heading(level)) => {
                let row = source_row(&starts, b, e.start);
                current = Some(Heading { row, level: *level, title: String::new(), anchor: String::new() });
            },
            MdEvent::End(MdTagEnd::Heading) => {
                match current {
                    Some(h) => {
                        let ghost ks0 = keys(anchors_view(anchors@));
                        let ghost hv0 = headings_view(result@);
                        let anchor = unique_anchor(h.title.as_str(), &mut anchors);
                        let ghost av = anchor@;
                        result.push(Heading { row: h.row, level: h.level, title: h.title, anchor });
                        proof {
                            assert(headings_view(result@) =~= hv0.push(headings_view(result@).last()));
                            assert forall|k: int| 0 <= k < result@.len() implies keys(
                                anchors_view(anchors@),
                            ).contains(#[trigger] result@[k].anchor@) by {
                                if k < result@.len() - 1 {
                                    assert(ks0.contains(result@[k].anchor@));
                                    let w = ks0.index_of(result@[k].anchor@);
                                    assert(keys(anchors_view(anchors@))[w] == result@[k].anchor@);
                                } else {
                                    assert(keys(anchors_view(anchors@))[ks0.len() as int] == av);
                                }
                            }
                            assert forall|p: int, q: int|
                                0 <= p < q < headings_view(result@).len() implies #[trigger] headings_view(
                                    result@,
                                )[p].3 != #[trigger] headings_view(result@)[q].3 by {
                                if q == result@.len() - 1 {
                                    assert(ks0.contains(result@[p].anchor@));
                                } else {
                                    assert(hv0[p].3 != hv0[q].3);
                                }
                            }
                        }
                        current = None;
                    },
                    None => {},
                }
            },
            MdEvent::Text(t) | MdEvent::Code(t) => {
                match current {
                    Some(mut h) => {
                        append_str(&mut h.title, t);
                        current = Some(h);
                    },
                    None => {},
                }
            },
            MdEvent::SoftBreak | MdEvent::HardBreak => {
                match current {
                    Some(mut h) => {
                        crate::text::push_char(&mut h.title, ' ');
                        current = Some(h);
                    },
                    None => {},
                }
            },
            _ => {},
        }
        proof {
            let o2 = outline_fold(b@, events@, i + 1);
            assert(o2 == outline_step(b@, o, events@[i as int]));
        }
        i += 1;
    }
    result
}

/// `needle` occurs in `hay` as a contiguous run.
pub open spec fn contains_run(hay: Seq<char>, needle: Seq<char>) -> bool {
    exists|k: int| 0 <= k && k + needle.len() <= hay.len() && #[trigger] hay.subrange(k, k + needle.len()) == needle
}

/// Whether `needle` occurs in `hay` at `k`.
fn occurs_at(hay: &Vec<char>, needle: &Vec<char>, k: usize) -> (r: bool)
    requires
        k + needle@.len() <= hay@.len(),
    ensures
        r == (hay@.subrange(k as int, k + needle@.len()) == needle@),
{
    let n = hay.len();
    let mut j: usize = 0;
    while j < needle.len()
        invariant
            j <= needle@.len(),
            n == hay@.len(),
            k + needle@.len() <= hay@.len(),
            forall|m: int| 0 <= m < j ==> hay@[k + m] == #[trigger] needle@[m],
        decreases needle.len() - j,
    {
        if hay[k + j] != needle[j] {
            assert(hay@.subrange(k as int, k + needle@.len())[j as int] != needle@[j as int]);
            return false;
        }
        j += 1;
    }
    assert(hay@.subrange(k as int, k + needle@.len()) =~= needle@);
    true
}

fn contains_run_exec(hay: &Vec<char>, needle: &Vec<char>) -> (r: bool)
    ensures
        r == contains_run(hay@, needle@),
{
    if needle.len() > hay.len() {
        return false;
    }
    let last = hay.len() - needle.len();
    let mut k: usize = 0;
    while k < last
        invariant
            k <= last,
            last + needle@.len() == hay@.len(),
            forall|m: int| 0 <= m < k ==> #[trigger] hay@.subrange(m, m + needle@.len()) != needle@,
        decreases last - k,
    {
        if occurs_at(hay, needle, k) {
            return true;
        }
        k += 1;
    }
    occurs_at(hay, needle, last)
}

/// The outline entries whose titles contain the query, ignoring case, in
/// document order.
pub open spec fn spec_filter_outline(titles: Seq<Seq<char>>, query: Seq<char>) -> Seq<usize>
    decreases titles.len(),
{
    if titles.len() == 0 {
        Seq::empty()
    } else {
        let rest = spec_filter_outline(titles.drop_last(), query);
        if contains_run(lowercase(titles.last()), lowercase(query)) {
            rest.push((titles.len() - 1) as usize)
        } else {
            rest
        }
    }
}

pub open spec fn heading_titles(hs: Seq<Heading>) -> Seq<Seq<char>> {
    hs.map_values(|h: Heading| h.title@)
}

/// The indices of the headings that an outline query keeps.
pub fn filter_outline(headings: &Vec<Heading>, query: &str) -> (r: Vec<usize>)
    ensures
        r@ == spec_filter_outline(heading_titles(headings@), query@),
{
    let ghost titles = heading_titles(headings@);
    let q = chars_vec(to_lowercase(query).as_str());
    let mut matches: Vec<usize> = Vec::new();
    let mut i: usize = 0;
    while i < headings.len()
        invariant
            i <= headings@.len(),
            titles == heading_titles(headings@),
            q@ == lowercase(query@),
            matches@ == spec_filter_outline(titles.take(i as int), query@),
        decreases headings.len() - i,
    {
        assert(titles.take(i + 1).drop_last() =~= titles.take(i as int));
        assert(titles.take(i + 1).last() == headings@[i as int].title@);
        let t = chars_vec(to_lowercase(headings[i].title.as_str()).as_str());
        if contains_run_exec(&t, &q) {
            matches.push(i);
        }
        i += 1;
    }
    assert(titles.take(headings@.len() as int) =~= titles);
    matches
}

} // verus!
