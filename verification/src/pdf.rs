//! PDF export through user-installed Pandoc and Typst: the request and its
//! result, the tool version check, the destination check and the font
//! style that is the only Typst code put in front of the document.
use vstd::prelude::*;
use vstd::string::{StrSliceExecFns, StringExecFns};

use crate::document::{ascii_lower, ascii_lower_exec, extension, file_name, path_extension};
use crate::markdown::{pieces, strip_cr};
use crate::text::{chars_vec, is_unicode_whitespace, is_whitespace, push_char, trim_exec, trimmed};

verus! {

/// The PDF settings: the tools to run and the fonts asked for.
pub struct PdfConfig {
    pub pandoc: String,
    pub typst: String,
    pub main_font: Option<String>,
    pub mono_font: Option<String>,
}

/// What to export: the Markdown text, where it lives, where relative images
/// are found, and the PDF to write.
pub struct ExportRequest {
    pub source: String,
    pub source_path: Option<String>,
    pub base_dir: String,
    pub destination: String,
    pub config: PdfConfig,
}

/// A finished export and what the tools reported on the way.
#[derive(Debug)]
pub struct ExportResult {
    pub warnings: String,
}

/// The font setting a missing font was configured in.
#[derive(Clone, Copy, Debug, PartialEq, Eq, Structural)]
pub enum FontField {
    Main,
    Mono,
}

/// Why an export is refused.
#[derive(Clone, Copy, Debug, PartialEq, Eq, Structural)]
pub enum PdfError {
    /// The tool did not report a version.
    NoVersion,
    /// The tool's version could not be read.
    UnrecognizedVersion,
    /// The tool is older than the minimum the export needs.
    TooOld,
    /// A configured font is not installed.
    FontNotInstalled(FontField),
    /// The destination does not have a `.pdf` extension.
    NotPdf,
}

// ---------------------------------------------------------------------------
// Tool versions.

/// `str::split_whitespace`: the maximal runs of non-whitespace characters.
pub open spec fn words(s: Seq<char>) -> Seq<Seq<char>>
    decreases s.len(),
{
    if s.len() == 0 {
        Seq::empty()
    } else {
        let rest = words(s.drop_last());
        let c = s.last();
        if is_unicode_whitespace(c) {
            rest
        } else if s.len() > 1 && !is_unicode_whitespace(s[s.len() - 2]) {
            rest.update(rest.len() - 1, rest.last().push(c))
        } else {
            rest.push(seq![c])
        }
    }
}

/// `s` split at every `.`.
pub open spec fn dot_parts(s: Seq<char>) -> Seq<Seq<char>>
    decreases s.len(),
{
    if s.len() == 0 {
        seq![Seq::empty()]
    } else {
        let rest = dot_parts(s.drop_last());
        if s.last() == '.' {
            rest.push(Seq::empty())
        } else {
            rest.update(rest.len() - 1, rest.last().push(s.last()))
        }
    }
}

pub open spec fn is_digit(c: char) -> bool {
    '0' <= c && c <= '9'
}

/// `s` without its trailing characters that are not ASCII digits.
pub open spec fn trim_nondigits(s: Seq<char>) -> Seq<char>
    decreases s.len(),
{
    if s.len() > 0 && !is_digit(s.last()) {
        trim_nondigits(s.drop_last())
    } else {
        s
    }
}

/// The value of a string of ASCII digits.
pub open spec fn digits_value(s: Seq<char>) -> nat
    decreases s.len(),
{
    if s.len() == 0 {
        0
    } else {
        digits_value(s.drop_last()) * 10 + ((s.last() as u32) - 48) as nat
    }
}

/// `s` without one leading `+`.
pub open spec fn sign_stripped(s: Seq<char>) -> Seq<char> {
    if s.len() > 0 && s[0] == '+' {
        s.subrange(1, s.len() as int)
    } else {
        s
    }
}

/// `u32::from_str`: an optional `+` and one or more ASCII digits whose value
/// fits.
pub open spec fn parse_u32(s: Seq<char>) -> Option<u32> {
    let body = sign_stripped(s);
    if body.len() > 0 && (forall|i: int| 0 <= i < body.len() ==> is_digit(#[trigger] body[i]))
        && digits_value(body) <= u32::MAX {
        Some(digits_value(body) as u32)
    } else {
        None
    }
}

/// The version a tool reports as the second word of its `--version` output:
/// up to three dot-separated numbers, each read up to its last digit, the
/// missing ones zero.
pub open spec fn reported_version(text: Seq<char>) -> Result<Seq<u32>, PdfError> {
    let ws = words(text);
    if ws.len() < 2 {
        Err(PdfError::NoVersion)
    } else {
        let parts = dot_parts(ws[1]);
        let n = if parts.len() < 3 {
            parts.len() as int
        } else {
            3
        };
        if exists|i: int| 0 <= i < n && parse_u32(trim_nondigits(#[trigger] parts[i])) is None {
            Err(PdfError::UnrecognizedVersion)
        } else {
            Ok(
                Seq::new(
                    3,
                    |i: int|
                        if i < n {
                            parse_u32(trim_nondigits(parts[i]))->0
                        } else {
                            0u32
                        },
                ),
            )
        }
    }
}

/// Versions compared component by component.
pub open spec fn at_least(v: Seq<u32>, m: Seq<u32>) -> bool {
    ||| v[0] > m[0]
    ||| (v[0] == m[0] && v[1] > m[1])
    ||| (v[0] == m[0] && v[1] == m[1] && v[2] >= m[2])
}

proof fn lemma_digits_value_prefix(s: Seq<char>, i: int)
    requires
        0 <= i <= s.len(),
    ensures
        digits_value(s.take(i)) <= digits_value(s),
    decreases s.len(),
{
    if i < s.len() {
        assert(s.drop_last().take(i) =~= s.take(i));
        lemma_digits_value_prefix(s.drop_last(), i);
    } else {
        assert(s.take(i) =~= s);
    }
}

fn parse_u32_exec(s: &Vec<char>) -> (r: Option<u32>)
    ensures
        r == parse_u32(s@),
{
    let start: usize = if s.len() > 0 && s[0] == '+' {
        1
    } else {
        0
    };
    let ghost body = sign_stripped(s@);
    assert(body =~= s@.subrange(start as int, s@.len() as int));
    if start == s.len() {
        return None;
    }
    let mut acc: u64 = 0;
    let mut i = start;
    while i < s.len()
        invariant
            start <= i <= s@.len(),
            body == sign_stripped(s@),
            body =~= s@.subrange(start as int, s@.len() as int),
            forall|k: int| 0 <= k < i - start ==> is_digit(#[trigger] body[k]),
            acc == digits_value(body.take(i - start)),
            acc <= u32::MAX,
        decreases s.len() - i,
    {
        let c = s[i];
        assert(c == body[i - start]);
        if !('0' <= c && c <= '9') {
            assert(!is_digit(body[i - start]));
            assert(!(forall|k: int| 0 <= k < body.len() ==> is_digit(#[trigger] body[k])));
            return None;
        }
        let d = (c as u32 - 48) as u64;
        assert(body.take(i - start + 1).drop_last() =~= body.take(i - start));
        assert(body.take(i - start + 1).last() == c);
        assert(digits_value(body.take(i - start + 1)) == acc * 10 + d);
        let next = acc * 10 + d;
        if next > 0xffff_ffff {
            proof {
                lemma_digits_value_prefix(body, i - start + 1);
            }
            assert(digits_value(body) > u32::MAX);
            return None;
        }
        acc = next;
        i += 1;
    }
    assert(body.take(body.len() as int) =~= body);
    Some(acc as u32)
}

fn words_exec(s: &str) -> (r: Vec<Vec<char>>)
    ensures
        r@.map_values(|w: Vec<char>| w@) == words(s@),
{
    let cs = chars_vec(s);
    let mut out: Vec<Vec<char>> = Vec::new();
    let mut i: usize = 0;
    while i < cs.len()
        invariant
            i <= cs@.len(),
            cs@ == s@,
            out@.map_values(|w: Vec<char>| w@) == words(cs@.take(i as int)),
        decreases cs.len() - i,
    {
        let ghost before = out@.map_values(|w: Vec<char>| w@);
        assert(cs@.take(i + 1).drop_last() =~= cs@.take(i as int));
        let c = cs[i];
        if !is_whitespace(c) {
            if i > 0 && !is_whitespace(cs[i - 1]) && out.len() > 0 {
                let mut w = out.pop().unwrap();
                w.push(c);
                out.push(w);
                assert(out@.map_values(|w: Vec<char>| w@) =~= before.update(
                    before.len() - 1,
                    before.last().push(c),
                ));
            } else {
                let mut w: Vec<char> = Vec::new();
                w.push(c);
                out.push(w);
                assert(out@.map_values(|w: Vec<char>| w@) =~= before.push(seq![c]));
            }
        }
        proof {
            if !is_unicode_whitespace(c) && i > 0 && !is_unicode_whitespace(cs@[i - 1]) {
                lemma_words_nonempty(cs@.take(i as int));
            }
        }
        i += 1;
    }
    assert(cs@.take(cs@.len() as int) =~= cs@);
    out
}

proof fn lemma_words_nonempty(s: Seq<char>)
    requires
        s.len() > 0,
        !is_unicode_whitespace(s.last()),
    ensures
        words(s).len() > 0,
    decreases s.len(),
{
    if s.len() > 1 && !is_unicode_whitespace(s[s.len() - 2]) {
        lemma_words_nonempty(s.drop_last());
    }
}

fn dot_parts_exec(s: &Vec<char>) -> (r: Vec<Vec<char>>)
    ensures
        r@.map_values(|w: Vec<char>| w@) == dot_parts(s@),
{
    let mut done: Vec<Vec<char>> = Vec::new();
    let mut cur: Vec<char> = Vec::new();
    let mut i: usize = 0;
    while i < s.len()
        invariant
            i <= s@.len(),
            done@.map_values(|w: Vec<char>| w@).push(cur@) == dot_parts(s@.take(i as int)),
        decreases s.len() - i,
    {
        let ghost before = done@.map_values(|w: Vec<char>| w@).push(cur@);
        assert(s@.take(i + 1).drop_last() =~= s@.take(i as int));
        if s[i] == '.' {
            done.push(cur);
            cur = Vec::new();
            assert(done@.map_values(|w: Vec<char>| w@).push(cur@) =~= before.push(Seq::empty()));
        } else {
            cur.push(s[i]);
            assert(done@.map_values(|w: Vec<char>| w@).push(cur@) =~= before.update(
                before.len() - 1,
                before.last().push(s@[i as int]),
            ));
        }
        i += 1;
    }
    assert(s@.take(s@.len() as int) =~= s@);
    done.push(cur);
    done
}

fn trim_nondigits_exec(s: &Vec<char>) -> (r: Vec<char>)
    ensures
        r@ == trim_nondigits(s@),
{
    let mut e = s.len();
    assert(s@.take(s@.len() as int) =~= s@);
    while e > 0 && !('0' <= s[e - 1] && s[e - 1] <= '9')
        invariant
            e <= s@.len(),
            trim_nondigits(s@.take(e as int)) == trim_nondigits(s@),
        decreases e,
    {
        assert(s@.take(e as int).drop_last() =~= s@.take(e - 1));
        e -= 1;
    }
    assert(s@.take(s@.len() as int) =~= s@);
    let mut r: Vec<char> = Vec::new();
    let mut k: usize = 0;
    while k < e
        invariant
            k <= e <= s@.len(),
            r@ == s@.take(k as int),
        decreases e - k,
    {
        r.push(s[k]);
        assert(s@.take(k + 1) =~= s@.take(k as int).push(s@[k as int]));
        k += 1;
    }
    r
}

/// Read the version a tool reports and check it against `minimum`.
pub fn tool_version(text: &str, minimum: [u32; 3]) -> (r: Result<[u32; 3], PdfError>)
    ensures
        match reported_version(text@) {
            Err(e) => r == Err::<[u32; 3], _>(e),
            Ok(v) => if at_least(v, minimum@) {
                r matches Ok(w) && w@ == v
            } else {
                r == Err::<[u32; 3], _>(PdfError::TooOld)
            },
        },
{
    let ws = words_exec(text);
    let ghost wv = ws@.map_values(|w: Vec<char>| w@);
    if ws.len() < 2 {
        assert(wv.len() < 2);
        return Err(PdfError::NoVersion);
    }
    let parts = dot_parts_exec(&ws[1]);
    let ghost pv = parts@.map_values(|w: Vec<char>| w@);
    assert(pv == dot_parts(wv[1]));
    let n = if parts.len() < 3 {
        parts.len()
    } else {
        3
    };
    let mut version: [u32; 3] = [0, 0, 0];
    let mut i: usize = 0;
    while i < n
        invariant
            i <= n <= 3,
            n <= parts@.len(),
            pv == parts@.map_values(|w: Vec<char>| w@),
            words(text@).len() >= 2,
            pv == dot_parts(words(text@)[1]),
            n == if pv.len() < 3 { pv.len() as int } else { 3 },
            version@.len() == 3,
            forall|k: int| 0 <= k < i ==> parse_u32(trim_nondigits(#[trigger] pv[k])) == Some(version@[k]),
            forall|k: int| i <= k < 3 ==> #[trigger] version@[k] == 0,
        decreases n - i,
    {
        let digits = trim_nondigits_exec(&parts[i]);
        match parse_u32_exec(&digits) {
            Some(v) => {
                version[i] = v;
            },
            None => {
                assert(parse_u32(trim_nondigits(pv[i as int])) is None);
                return Err(PdfError::UnrecognizedVersion);
            },
        }
        i += 1;
    }
    let ghost v = Seq::new(
        3,
        |k: int|
            if k < n {
                parse_u32(trim_nondigits(pv[k]))->0
            } else {
                0u32
            },
    );
    assert(version@ =~= v);
    let ok = version[0] > minimum[0] || (version[0] == minimum[0] && version[1] > minimum[1]) || (
    version[0] == minimum[0] && version[1] == minimum[1] && version[2] >= minimum[2]);
    if ok {
        Ok(version)
    } else {
        Err(PdfError::TooOld)
    }
}

// ---------------------------------------------------------------------------
// The destination.

/// The destination must be a `.pdf` file (the extension in any ASCII case).
pub open spec fn is_pdf_path(p: Seq<char>) -> bool {
    match extension(file_name(p)) {
        Some(e) => e.len() == 3 && ascii_lower(e[0]) == 'p' && ascii_lower(e[1]) == 'd' && ascii_lower(
            e[2],
        ) == 'f',
        None => false,
    }
}

pub fn check_destination(destination: &str) -> (r: Result<(), PdfError>)
    ensures
        r is Ok <==> is_pdf_path(destination@),
        r is Err ==> r == Err::<(), _>(PdfError::NotPdf),
{
    match path_extension(destination) {
        Some(e) => {
            if e.len() == 3 && ascii_lower_exec(e[0]) == 'p' && ascii_lower_exec(e[1]) == 'd'
                && ascii_lower_exec(e[2]) == 'f' {
                Ok(())
            } else {
                Err(PdfError::NotPdf)
            }
        },
        None => Err(PdfError::NotPdf),
    }
}

// ---------------------------------------------------------------------------
// Fonts.

/// `str::lines`: split at `\n`, a `\r` before it dropped, and no empty last
/// line after a final break.
pub open spec fn text_lines(s: Seq<char>) -> Seq<Seq<char>> {
    let ps = pieces(s);
    let k = ps.len() - 1;
    let init = Seq::new(k as nat, |i: int| strip_cr(ps[i]));
    if ps[k].len() > 0 {
        init.push(ps[k])
    } else {
        init
    }
}

/// The installed font families, as `typst fonts` lists them.
pub open spec fn installed_fonts(available: Seq<char>) -> Seq<Seq<char>> {
    text_lines(available).map_values(|l: Seq<char>| trimmed(l))
}

/// `str::eq_ignore_ascii_case`.
pub open spec fn same_ignoring_ascii_case(a: Seq<char>, b: Seq<char>) -> bool {
    a.len() == b.len() && forall|i: int| 0 <= i < a.len() ==> ascii_lower(#[trigger] a[i]) == ascii_lower(b[i])
}

/// The first installed family from index `i` on that is `name` in any ASCII case.
pub open spec fn find_font(installed: Seq<Seq<char>>, name: Seq<char>, i: int) -> Option<Seq<char>>
    decreases installed.len() - i,
{
    if i < 0 || i >= installed.len() {
        None
    } else if same_ignoring_ascii_case(installed[i], name) {
        Some(installed[i])
    } else {
        find_font(installed, name, i + 1)
    }
}

/// The installed family of the first candidate from index `j` on that is installed.
pub open spec fn first_found(installed: Seq<Seq<char>>, candidates: Seq<Seq<char>>, j: int) -> Option<
    Seq<char>,
>
    decreases candidates.len() - j,
{
    if j < 0 || j >= candidates.len() {
        None
    } else {
        match find_font(installed, candidates[j], 0) {
            Some(f) => Some(f),
            None => first_found(installed, candidates, j + 1),
        }
    }
}

/// Families that cover Chinese, Japanese and Korean text, by preference.
pub open spec fn cjk_fonts() -> Seq<Seq<char>> {
    seq![
        "PingFang TC"@,
        "PingFang SC"@,
        "Microsoft JhengHei"@,
        "Microsoft YaHei"@,
        "Noto Sans CJK TC"@,
        "Noto Sans CJK SC"@,
        "Noto Sans CJK JP"@,
        "Noto Sans CJK KR"@,
        "Source Han Sans TC"@,
        "Source Han Sans SC"@,
        "Hiragino Sans"@,
        "Yu Gothic"@,
        "Malgun Gothic"@,
    ]
}

/// Monospaced families, by preference.
pub open spec fn mono_fonts() -> Seq<Seq<char>> {
    seq!["Menlo"@, "Consolas"@, "DejaVu Sans Mono"@, "Liberation Mono"@]
}

/// A configured family must be installed; it is then used as installed.
pub open spec fn requested(installed: Seq<Seq<char>>, name: Option<Seq<char>>, field: FontField) -> Result<
    Option<Seq<char>>,
    PdfError,
> {
    match name {
        None => Ok(None),
        Some(n) => match find_font(installed, n, 0) {
            Some(f) => Ok(Some(f)),
            None => Err(PdfError::FontNotInstalled(field)),
        },
    }
}

/// A lowercase hexadecimal digit.
pub open spec fn json_hex_digit(d: int) -> char {
    if d < 10 {
        (48 + d) as char
    } else {
        (87 + d) as char
    }
}

/// How a JSON string literal writes one character: `"` and `\` escaped
/// with a backslash, the control characters that have one by their short
/// escape, the other control characters as `\u00XX`, the rest as is.
pub open spec fn json_escape(c: char) -> Seq<char> {
    if c == '"' {
        seq!['\\', '"']
    } else if c == '\\' {
        seq!['\\', '\\']
    } else if c == '\u{8}' {
        seq!['\\', 'b']
    } else if c == '\t' {
        seq!['\\', 't']
    } else if c == '\n' {
        seq!['\\', 'n']
    } else if c == '\u{c}' {
        seq!['\\', 'f']
    } else if c == '\r' {
        seq!['\\', 'r']
    } else if (c as u32) < 0x20 {
        seq!['\\', 'u', '0', '0', json_hex_digit((c as int) / 16), json_hex_digit((c as int) % 16)]
    } else {
        seq![c]
    }
}

pub open spec fn json_escape_all(s: Seq<char>) -> Seq<char>
    decreases s.len(),
{
    if s.len() == 0 {
        Seq::empty()
    } else {
        json_escape_all(s.drop_last()) + json_escape(s.last())
    }
}

/// The JSON string literal for a text, which Typst reads as the same text:
/// a quote, each character escaped, a closing quote.
pub open spec fn json_string(s: Seq<char>) -> Seq<char> {
    seq!['"'] + json_escape_all(s) + seq!['"']
}

/// `serde_json::to_string` on a string slice, which cannot fail for one:
/// the string's JSON literal, escaped as serde_json's escape table does.
#[verifier::external_body]
fn json_quote(s: &str) -> (r: String)
    ensures
        r@ == json_string(s@),
{
    serde_json::to_string(s).unwrap_or_default()
}

pub open spec fn main_font_line(main: Option<Seq<char>>) -> Seq<char> {
    match main {
        Some(m) => "#set text(font: "@ + json_string(m) + ")\n"@,
        None => Seq::empty(),
    }
}

pub open spec fn mono_font_line(mono: Option<Seq<char>>, fallback: Option<Seq<char>>) -> Seq<char> {
    match mono {
        Some(m) => {
            let list = match fallback {
                Some(f) => json_string(m) + ", "@ + json_string(f),
                None => json_string(m),
            };
            "#show raw: set text(font: ("@ + list + ",), size: 9pt)\n"@
        },
        None => Seq::empty(),
    }
}

/// The Typst font settings: the configured (or an installed CJK) main font,
/// and the configured (or an installed monospaced) code font falling back
/// to the CJK (or main) font.
pub open spec fn spec_font_style(
    main_font: Option<Seq<char>>,
    mono_font: Option<Seq<char>>,
    available: Seq<char>,
) -> Result<Seq<char>, PdfError> {
    let inst = installed_fonts(available);
    let cjk = first_found(inst, cjk_fonts(), 0);
    match requested(inst, main_font, FontField::Main) {
        Err(e) => Err(e),
        Ok(req_main) => match requested(inst, mono_font, FontField::Mono) {
            Err(e) => Err(e),
            Ok(req_mono) => {
                let main = if req_main is Some {
                    req_main
                } else {
                    cjk
                };
                let mono = if req_mono is Some {
                    req_mono
                } else {
                    first_found(inst, mono_fonts(), 0)
                };
                Ok(main_font_line(main) + mono_font_line(mono, if cjk is Some { cjk } else { main }))
            },
        },
    }
}

pub open spec fn no_cjk_warning() -> Seq<char> {
    "No known CJK font found. For Chinese/Japanese/Korean text, install Noto Sans CJK or set pdf.main_font to an installed family; inspect the PDF for missing glyphs."@
}

/// Warnings after the font check: one more when neither a CJK font is
/// installed nor a main font configured.
pub open spec fn font_warnings(main_font: Option<Seq<char>>, available: Seq<char>, warnings: Seq<char>) -> Seq<
    char,
> {
    if first_found(installed_fonts(available), cjk_fonts(), 0) is None && main_font is None {
        warnings + (if warnings.len() > 0 {
            seq!['\n']
        } else {
            Seq::empty()
        }) + no_cjk_warning()
    } else {
        warnings
    }
}

fn text_lines_exec(s: &str) -> (r: Vec<String>)
    ensures
        crate::markdown::strings_view(r@) == text_lines(s@),
{
    let ps = crate::markdown::pieces_exec(s);
    let ghost pv = crate::markdown::strings_view(ps@);
    proof {
        crate::markdown::lemma_pieces_len(s@);
    }
    let k = ps.len() - 1;
    let mut out: Vec<String> = Vec::new();
    let mut i: usize = 0;
    while i < k
        invariant
            i <= k,
            k + 1 == ps@.len(),
            pv == crate::markdown::strings_view(ps@),
            crate::markdown::strings_view(out@) == Seq::new(i as nat, |j: int| strip_cr(pv[j])),
        decreases k - i,
    {
        let ghost before = crate::markdown::strings_view(out@);
        assert(pv[i as int] == ps@[i as int]@);
        out.push(crate::markdown::strip_cr_exec(ps[i].as_str()));
        assert(crate::markdown::strings_view(out@) =~= before.push(strip_cr(pv[i as int])));
        assert(crate::markdown::strings_view(out@) =~= Seq::new((i + 1) as nat, |j: int| strip_cr(pv[j])));
        i += 1;
    }
    if !ps[k].as_str().is_empty() {
        let ghost before = crate::markdown::strings_view(out@);
        out.push(ps[k].clone());
        assert(crate::markdown::strings_view(out@) =~= before.push(pv[k as int]));
    }
    out
}

fn same_ignoring_ascii_case_exec(a: &Vec<char>, b: &Vec<char>) -> (r: bool)
    ensures
        r == same_ignoring_ascii_case(a@, b@),
{
    if a.len() != b.len() {
        return false;
    }
    let mut i: usize = 0;
    while i < a.len()
        invariant
            i <= a@.len(),
            a@.len() == b@.len(),
            forall|k: int| 0 <= k < i ==> ascii_lower(#[trigger] a@[k]) == ascii_lower(b@[k]),
        decreases a.len() - i,
    {
        if ascii_lower_exec(a[i]) != ascii_lower_exec(b[i]) {
            return false;
        }
        i += 1;
    }
    true
}

fn find_font_exec(installed: &Vec<Vec<char>>, name: &Vec<char>) -> (r: Option<usize>)
    ensures
        match r {
            Some(i) => i < installed@.len() && find_font(installed@.map_values(|v: Vec<char>| v@), name@, 0)
                == Some(installed@[i as int]@),
            None => find_font(installed@.map_values(|v: Vec<char>| v@), name@, 0) is None,
        },
{
    let ghost iv = installed@.map_values(|v: Vec<char>| v@);
    let mut i: usize = 0;
    while i < installed.len()
        invariant
            i <= installed@.len(),
            iv == installed@.map_values(|v: Vec<char>| v@),
            find_font(iv, name@, i as int) == find_font(iv, name@, 0),
        decreases installed.len() - i,
    {
        if same_ignoring_ascii_case_exec(&installed[i], name) {
            return Some(i);
        }
        i += 1;
    }
    None
}

fn first_found_exec(installed: &Vec<Vec<char>>, candidates: &Vec<&str>) -> (r: Option<usize>)
    ensures
        match r {
            Some(i) => i < installed@.len() && first_found(
                installed@.map_values(|v: Vec<char>| v@),
                candidates@.map_values(|c: &str| c@),
                0,
            ) == Some(installed@[i as int]@),
            None => first_found(
                installed@.map_values(|v: Vec<char>| v@),
                candidates@.map_values(|c: &str| c@),
                0,
            ) is None,
        },
{
    let ghost iv = installed@.map_values(|v: Vec<char>| v@);
    let ghost cv = candidates@.map_values(|c: &str| c@);
    let mut j: usize = 0;
    while j < candidates.len()
        invariant
            j <= candidates@.len(),
            iv == installed@.map_values(|v: Vec<char>| v@),
            cv == candidates@.map_values(|c: &str| c@),
            first_found(iv, cv, j as int) == first_found(iv, cv, 0),
        decreases candidates.len() - j,
    {
        let name = chars_vec(candidates[j]);
        match find_font_exec(installed, &name) {
            Some(i) => {
                return Some(i);
            },
            None => {},
        }
        j += 1;
    }
    None
}

fn cjk_candidates() -> (v: Vec<&'static str>)
    ensures
        v@.map_values(|c: &str| c@) == cjk_fonts(),
{
    let v = vec![
        "PingFang TC",
        "PingFang SC",
        "Microsoft JhengHei",
        "Microsoft YaHei",
        "Noto Sans CJK TC",
        "Noto Sans CJK SC",
        "Noto Sans CJK JP",
        "Noto Sans CJK KR",
        "Source Han Sans TC",
        "Source Han Sans SC",
        "Hiragino Sans",
        "Yu Gothic",
        "Malgun Gothic",
    ];
    assert(v@.map_values(|c: &str| c@) =~= cjk_fonts());
    v
}

fn mono_candidates() -> (v: Vec<&'static str>)
    ensures
        v@.map_values(|c: &str| c@) == mono_fonts(),
{
    let v = vec!["Menlo", "Consolas", "DejaVu Sans Mono", "Liberation Mono"];
    assert(v@.map_values(|c: &str| c@) =~= mono_fonts());
    v
}

fn requested_exec(installed: &Vec<Vec<char>>, name: &Option<String>, field: FontField) -> (r: Result<
    Option<usize>,
    PdfError,
>)
    ensures
        match r {
            Ok(Some(i)) => i < installed@.len() && requested(
                installed@.map_values(|v: Vec<char>| v@),
                crate::image_assets::opt_string_view(*name),
                field,
            ) == Ok::<_, PdfError>(Some(installed@[i as int]@)),
            Ok(None) => requested(
                installed@.map_values(|v: Vec<char>| v@),
                crate::image_assets::opt_string_view(*name),
                field,
            ) == Ok::<Option<Seq<char>>, PdfError>(None),
            Err(e) => requested(
                installed@.map_values(|v: Vec<char>| v@),
                crate::image_assets::opt_string_view(*name),
                field,
            ) == Err::<Option<Seq<char>>, _>(e),
        },
{
    match name {
        None => Ok(None),
        Some(n) => {
            let cs = chars_vec(n.as_str());
            match find_font_exec(installed, &cs) {
                Some(i) => Ok(Some(i)),
                None => Err(PdfError::FontNotInstalled(field)),
            }
        },
    }
}

fn json_of_chars(v: &Vec<char>) -> (r: String)
    ensures
        r@ == json_string(v@),
{
    let s = crate::text::string_from_chars(v.as_slice());
    json_quote(s.as_str())
}

/// The Typst font settings put in front of the exported document, and the
/// warning when no CJK font can be used.
pub fn font_style(config: &PdfConfig, available: &str, warnings: &mut String) -> (r: Result<
    String,
    PdfError,
>)
    ensures
        match spec_font_style(
            crate::image_assets::opt_string_view(config.main_font),
            crate::image_assets::opt_string_view(config.mono_font),
            available@,
        ) {
            Ok(style) => r matches Ok(s) && s@ == style && final(warnings)@ == font_warnings(
                crate::image_assets::opt_string_view(config.main_font),
                available@,
                old(warnings)@,
            ),
            Err(e) => r == Err::<String, _>(e) && final(warnings)@ == old(warnings)@,
        },
{
    let lines = text_lines_exec(available);
    let mut installed: Vec<Vec<char>> = Vec::new();
    let mut i: usize = 0;
    while i < lines.len()
        invariant
            i <= lines@.len(),
            crate::markdown::strings_view(lines@) == text_lines(available@),
            installed@.map_values(|v: Vec<char>| v@) == installed_fonts(available@).take(i as int),
        decreases lines.len() - i,
    {
        let ghost before = installed@.map_values(|v: Vec<char>| v@);
        assert(lines@[i as int]@ == text_lines(available@)[i as int]);
        assert(installed_fonts(available@)[i as int] == trimmed(text_lines(available@)[i as int]));
        let t = trim_exec(lines[i].as_str());
        installed.push(chars_vec(t.as_str()));
        assert(installed@.map_values(|v: Vec<char>| v@) =~= before.push(installed_fonts(available@)[i as int]));
        assert(installed_fonts(available@).take(i + 1) =~= installed_fonts(available@).take(i as int).push(
            installed_fonts(available@)[i as int],
        ));
        assert(installed@.map_values(|v: Vec<char>| v@) =~= installed_fonts(available@).take(i + 1));
        i += 1;
    }
    assert(installed_fonts(available@).take(lines@.len() as int) =~= installed_fonts(available@));
    let ghost inst = installed@.map_values(|v: Vec<char>| v@);
    let cjk = first_found_exec(&installed, &cjk_candidates());
    let req_main = requested_exec(&installed, &config.main_font, FontField::Main)?;
    let req_mono = requested_exec(&installed, &config.mono_font, FontField::Mono)?;
    let main = if req_main.is_some() {
        req_main
    } else {
        cjk
    };
    let mono = if req_mono.is_some() {
        req_mono
    } else {
        first_found_exec(&installed, &mono_candidates())
    };
    if cjk.is_none() && config.main_font.is_none() {
        if !warnings.as_str().is_empty() {
            push_char(warnings, '\n');
        }
        warnings.append("No known CJK font found. For Chinese/Japanese/Korean text, install Noto Sans CJK or set pdf.main_font to an installed family; inspect the PDF for missing glyphs.");
    }
    let mut style = String::new();
    match main {
        Some(m) => {
            style.append("#set text(font: ");
            let q = json_of_chars(&installed[m]);
            style.append(q.as_str());
            style.append(")\n");
        },
        None => {},
    }
    let ghost main_part = style@;
    match mono {
        Some(m) => {
            style.append("#show raw: set text(font: (");
            let q = json_of_chars(&installed[m]);
            style.append(q.as_str());
            let fallback = if cjk.is_some() {
                cjk
            } else {
                main
            };
            match fallback {
                Some(f) => {
                    style.append(", ");
                    let q2 = json_of_chars(&installed[f]);
                    style.append(q2.as_str());
                },
                None => {},
            }
            style.append(",), size: 9pt)\n");
        },
        None => {},
    }
    Ok(style)
}

/// How an inline of a Pandoc inline list takes part in underlining: a raw
/// HTML `<u>` or `</u>`, or anything else.
#[derive(Clone, Copy, Debug, PartialEq, Eq, Structural)]
pub enum InlineTag {
    Open,
    Close,
    Other,
}

/// What becomes of one inline of a list once underlines are balanced.
#[derive(Clone, Copy, Debug, PartialEq, Eq, Structural)]
pub enum UnderlineRole {
    /// The inline stays as it is (an unmatched `</u>` among them).
    Keep,
    /// A `<u>` that a later `</u>` closes: an underline begins here.
    Begin,
    /// A `</u>` that closes the innermost open underline.
    End,
    /// A `<u>` never closed within the list: the literal text `<u>`.
    OpenText,
}

/// The positions of the `<u>` still open after the first `n` inlines,
/// innermost last.
pub open spec fn open_tags(tags: Seq<InlineTag>, n: int) -> Seq<int>
    decreases n,
{
    if n <= 0 {
        Seq::empty()
    } else {
        let s = open_tags(tags, n - 1);
        match tags[n - 1] {
            InlineTag::Open => s.push(n - 1),
            InlineTag::Close => if s.len() > 0 {
                s.drop_last()
            } else {
                s
            },
            InlineTag::Other => s,
        }
    }
}

/// The role of the inline at `i`: a `</u>` closes the innermost `<u>` still
/// open before it, and a `<u>` still open when the list ends stays literal.
pub open spec fn underline_role(tags: Seq<InlineTag>, i: int) -> UnderlineRole {
    match tags[i] {
        InlineTag::Open => if open_tags(tags, tags.len() as int).contains(i) {
            UnderlineRole::OpenText
        } else {
            UnderlineRole::Begin
        },
        InlineTag::Close => if open_tags(tags, i).len() > 0 {
            UnderlineRole::End
        } else {
            UnderlineRole::Keep
        },
        InlineTag::Other => UnderlineRole::Keep,
    }
}

/// The open positions are `<u>` tags before `n`, strictly increasing.
proof fn lemma_open_tags_shape(tags: Seq<InlineTag>, n: int)
    requires
        0 <= n <= tags.len(),
    ensures
        forall|k: int|
            0 <= k < open_tags(tags, n).len() ==> {
                let p = #[trigger] open_tags(tags, n)[k];
                0 <= p < n && tags[p] == InlineTag::Open
            },
        forall|k: int, l: int|
            0 <= k < l < open_tags(tags, n).len() ==> #[trigger] open_tags(tags, n)[k] < #[trigger] open_tags(
                tags,
                n,
            )[l],
    decreases n,
{
    if n > 0 {
        lemma_open_tags_shape(tags, n - 1);
    }
}

/// A position open after `m` inlines and below `j <= m` was already open
/// after `j` inlines.
proof fn lemma_open_tags_persist(tags: Seq<InlineTag>, j: int, m: int)
    requires
        0 <= j <= m <= tags.len(),
    ensures
        forall|k: int|
            0 <= k < open_tags(tags, m).len() && #[trigger] open_tags(tags, m)[k] < j ==> open_tags(
                tags,
                j,
            ).contains(open_tags(tags, m)[k]),
    decreases m - j,
{
    if j < m {
        lemma_open_tags_persist(tags, j, m - 1);
        lemma_open_tags_shape(tags, m - 1);
        let s = open_tags(tags, m - 1);
        assert forall|k: int| 0 <= k < open_tags(tags, m).len() && #[trigger] open_tags(tags, m)[k] < j implies open_tags(
            tags,
            j,
        ).contains(open_tags(tags, m)[k]) by {
            if k < s.len() {
                assert(open_tags(tags, m)[k] == s[k]);
            }
        }
    }
}

/// Every `</u>` that ends an underline ends one that a `<u>` began: the
/// innermost open `<u>` before it has the role `Begin`. Underlines are
/// balanced within each list.
pub proof fn law_underlines_pair(tags: Seq<InlineTag>, j: int)
    requires
        0 <= j < tags.len(),
        underline_role(tags, j) == UnderlineRole::End,
    ensures
        tags[open_tags(tags, j).last()] == InlineTag::Open,
        open_tags(tags, j).last() < j,
        underline_role(tags, open_tags(tags, j).last()) == UnderlineRole::Begin,
{
    let n = tags.len() as int;
    let p = open_tags(tags, j).last();
    lemma_open_tags_shape(tags, j);
    lemma_open_tags_shape(tags, j + 1);
    let after = open_tags(tags, j + 1);
    assert(after =~= open_tags(tags, j).drop_last());
    assert(!after.contains(p)) by {
        if after.contains(p) {
            let k = choose|k: int| 0 <= k < after.len() && after[k] == p;
            assert(open_tags(tags, j)[k] < open_tags(tags, j)[open_tags(tags, j).len() - 1]);
        }
    }
    lemma_open_tags_persist(tags, j + 1, n);
    assert(!open_tags(tags, n).contains(p)) by {
        if open_tags(tags, n).contains(p) {
            let k = choose|k: int| 0 <= k < open_tags(tags, n).len() && open_tags(tags, n)[k] == p;
            assert(open_tags(tags, n)[k] < j + 1);
        }
    }
}

/// The role of each inline of a list, so that `<u>` ... `</u>` spans become
/// underlines, balanced within the list.
pub fn underline_roles(tags: &Vec<InlineTag>) -> (r: Vec<UnderlineRole>)
    ensures
        r@.len() == tags@.len(),
        forall|i: int| 0 <= i < tags@.len() ==> #[trigger] r@[i] == underline_role(tags@, i),
{
    let n = tags.len();
    let mut roles: Vec<UnderlineRole> = Vec::new();
    let mut stack: Vec<usize> = Vec::new();
    let mut i: usize = 0;
    while i < n
        invariant
            i <= n,
            n == tags@.len(),
            roles@.len() == i,
            stack@.map_values(|p: usize| p as int) == open_tags(tags@, i as int),
            forall|k: int|
                0 <= k < i ==> #[trigger] roles@[k] == match tags@[k] {
                    InlineTag::Open => UnderlineRole::Begin,
                    _ => underline_role(tags@, k),
                },
        decreases n - i,
    {
        let ghost before = open_tags(tags@, i as int);
        match tags[i] {
            InlineTag::Open => {
                roles.push(UnderlineRole::Begin);
                stack.push(i);
                assert(stack@.map_values(|p: usize| p as int) =~= before.push(i as int));
            },
            InlineTag::Close => {
                if stack.len() > 0 {
                    roles.push(UnderlineRole::End);
                    stack.pop();
                    assert(stack@.map_values(|p: usize| p as int) =~= before.drop_last());
                } else {
                    roles.push(UnderlineRole::Keep);
                }
            },
            InlineTag::Other => {
                roles.push(UnderlineRole::Keep);
            },
        }
        i += 1;
    }
    let ghost fin = open_tags(tags@, n as int);
    proof {
        lemma_open_tags_shape(tags@, n as int);
    }
    let mut k: usize = 0;
    while k < stack.len()
        invariant
            k <= stack@.len(),
            n == tags@.len(),
            roles@.len() == n,
            stack@.map_values(|p: usize| p as int) == fin,
            fin == open_tags(tags@, n as int),
            forall|q: int| 0 <= q < fin.len() ==> 0 <= #[trigger] fin[q] < n && tags@[fin[q]] == InlineTag::Open,
            forall|q: int|
                0 <= q < n ==> #[trigger] roles@[q] == match tags@[q] {
                    InlineTag::Open => if fin.take(k as int).contains(q) {
                        UnderlineRole::OpenText
                    } else {
                        UnderlineRole::Begin
                    },
                    _ => underline_role(tags@, q),
                },
        decreases stack.len() - k,
    {
        let p = stack[k];
        assert(stack@.map_values(|p: usize| p as int)[k as int] == p as int);
        assert(fin[k as int] == p as int);
        let ghost old_roles = roles@;
        roles.set(p, UnderlineRole::OpenText);
        assert forall|q: int| 0 <= q < n implies #[trigger] roles@[q] == match tags@[q] {
            InlineTag::Open => if fin.take(k + 1).contains(q) {
                UnderlineRole::OpenText
            } else {
                UnderlineRole::Begin
            },
            _ => underline_role(tags@, q),
        } by {
            assert(fin.take(k + 1) =~= fin.take(k as int).push(p as int));
            if q == p as int {
                assert(fin.take(k + 1)[k as int] == q);
                assert(fin.take(k + 1).contains(q));
            } else {
                assert(roles@[q] == old_roles[q]);
                assert(fin.take(k + 1).contains(q) == fin.take(k as int).contains(q));
            }
        }
        k += 1;
    }
    assert(fin.take(stack@.len() as int) =~= fin);
    roles
}

/// `digits` padded with leading zeros to at least `width` characters.
pub open spec fn zero_padded(digits: Seq<char>, width: nat) -> Seq<char> {
    if digits.len() < width {
        Seq::new((width - digits.len()) as nat, |i: int| '0') + digits
    } else {
        digits
    }
}

/// The file name under which the `n`-th distinct image of an export is
/// staged for Typst: `image-0001.png`, `image-0002.png`, ...
pub open spec fn spec_staged_image_name(n: nat) -> Seq<char> {
    "image-"@ + zero_padded(crate::text::decimal(n), 4) + ".png"@
}

pub fn staged_image_name(n: u64) -> (r: String)
    ensures
        r@ == spec_staged_image_name(n as nat),
{
    proof {
        reveal_strlit("image-");
        reveal_strlit(".png");
    }
    let digits = crate::text::decimal_exec(n);
    let mut r = String::from_str("image-");
    let mut pad: usize = digits.len();
    while pad < 4
        invariant
            digits@ == crate::text::decimal(n as nat),
            digits@.len() <= pad <= 4 || (pad == digits@.len() && pad >= 4),
            r@ == "image-"@ + Seq::new((pad - digits@.len()) as nat, |i: int| '0'),
        decreases 4 - pad,
    {
        push_char(&mut r, '0');
        assert(r@ =~= "image-"@ + Seq::new((pad + 1 - digits@.len()) as nat, |i: int| '0'));
        pad += 1;
    }
    let mut i: usize = 0;
    let ghost head = r@;
    while i < digits.len()
        invariant
            i <= digits@.len(),
            r@ == head + digits@.take(i as int),
        decreases digits.len() - i,
    {
        push_char(&mut r, digits[i]);
        assert(r@ =~= head + digits@.take(i + 1));
        i += 1;
    }
    r.append(".png");
    assert(digits@.take(digits@.len() as int) =~= digits@);
    assert(r@ =~= spec_staged_image_name(n as nat));
    r
}

/// What a raw Pandoc node is exported as: never executed, always shown.
#[derive(Debug, PartialEq, Eq)]
pub enum LiteralNode {
    /// A raw block, as a code block of its text.
    CodeBlock(String),
    /// Raw HTML inline, as literal text.
    Str(String),
    /// Any other raw inline, as inline code.
    Code(String),
}

/// The literal node for a raw node (`block` for a raw block) of `format`
/// with `text`.
pub fn literal_raw_node(block: bool, format: Option<&str>, text: String) -> (r: LiteralNode)
    ensures
        r == if block {
            LiteralNode::CodeBlock(text)
        } else if format matches Some(f) && f@ == seq!['h', 't', 'm', 'l'] {
            LiteralNode::Str(text)
        } else {
            LiteralNode::Code(text)
        },
{
    if block {
        return LiteralNode::CodeBlock(text);
    }
    let html = match format {
        Some(f) => {
            let cs = chars_vec(f);
            crate::text::chars_equal(cs.as_slice(), &['h', 't', 'm', 'l'])
        },
        None => false,
    };
    if html {
        LiteralNode::Str(text)
    } else {
        LiteralNode::Code(text)
    }
}


/// The version check orders versions lexicographically by (major, minor,
/// patch): a lower major number is always too old whatever follows, a higher
/// one always suffices, and with equal majors the minor and then the patch
/// number decide; the minimum itself passes.
pub proof fn law_versions_compare_major_first(v: Seq<u32>, m: Seq<u32>)
    requires
        v.len() == 3,
        m.len() == 3,
    ensures
        v[0] < m[0] ==> !at_least(v, m),
        v[0] > m[0] ==> at_least(v, m),
        v[0] == m[0] && v[1] < m[1] ==> !at_least(v, m),
        v[0] == m[0] && v[1] > m[1] ==> at_least(v, m),
        v[0] == m[0] && v[1] == m[1] ==> (at_least(v, m) <==> v[2] >= m[2]),
        v == m ==> at_least(v, m),
{
}

} // verus!
