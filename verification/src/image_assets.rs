//! Naming and locating local Markdown images: asset directories, local image
//! URLs, alt text and asset filenames.
use vstd::prelude::*;
use vstd::string::StringExecFns;
use vstd::utf8::{decode_utf8, encode_scalar, encode_utf8, valid_utf8};

use crate::text::{all_whitespace_from, chars_vec, is_control, is_whitespace, push_char, string_from_chars};

verus! {

/// An image to import: a file on disk, or encoded bytes from the clipboard.
pub enum ImageInput {
    File(String),
    Bytes(Vec<u8>),
}

/// Why an asset directory is refused.
#[derive(Debug, Clone, Copy, PartialEq, Eq)]
pub enum AssetDirError {
    /// Must be a nonempty relative child path without parent traversal, roots, or prefixes.
    NotAChildPath,
}

/// `s[i..i+2] == ".."` is a whole `/`-separated segment.
pub open spec fn dotdot_segment_at(s: Seq<char>, i: int) -> bool {
    &&& 0 <= i
    &&& i + 1 < s.len()
    &&& s[i] == '.'
    &&& s[i + 1] == '.'
    &&& (i == 0 || s[i - 1] == '/')
    &&& (i + 2 == s.len() || s[i + 2] == '/')
}

/// Every path component is a normal name: no root, no leading `.`, no `..`.
/// (Empty segments and interior `.` segments are not components at all.)
pub open spec fn only_normal_components(s: Seq<char>) -> bool {
    &&& !(s.len() > 0 && s[0] == '/')
    &&& !(s.len() > 0 && s[0] == '.' && (s.len() == 1 || s[1] == '/'))
    &&& forall|i: int| 0 <= i < s.len() ==> !dotdot_segment_at(s, i)
}

/// Asset directories are portable child paths, never document-relative traversal.
pub open spec fn valid_assets_dir(s: Seq<char>) -> bool {
    &&& !all_whitespace_from(s, 0)
    &&& forall|i: int| 0 <= i < s.len() ==> #[trigger] s[i] != '\\' && s[i] != ':'
    &&& only_normal_components(s)
}

pub fn validate_assets_dir(value: &str) -> (r: Result<(), AssetDirError>)
    ensures
        r is Ok <==> valid_assets_dir(value@),
{
    let cs = chars_vec(value);
    let n = cs.len();
    let mut blank = true;
    let mut i: usize = 0;
    while i < n
        invariant
            i <= n,
            n == cs@.len(),
            cs@ == value@,
            blank == (forall|k: int| 0 <= k < i ==> crate::text::is_unicode_whitespace(#[trigger] cs@[k])),
            forall|k: int| 0 <= k < i ==> #[trigger] cs@[k] != '\\' && cs@[k] != ':',
            forall|k: int| 0 <= k < i ==> !dotdot_segment_at(cs@, k),
        decreases n - i,
    {
        let c = cs[i];
        if c == '\\' || c == ':' {
            return Err(AssetDirError::NotAChildPath);
        }
        if c == '.' && i + 1 < n && cs[i + 1] == '.' && (i == 0 || cs[i - 1] == '/') && (i + 2
            == n || cs[i + 2] == '/') {
            assert(dotdot_segment_at(cs@, i as int));
            return Err(AssetDirError::NotAChildPath);
        }
        if !is_whitespace(c) {
            blank = false;
        }
        i += 1;
    }
    if blank {
        return Err(AssetDirError::NotAChildPath);
    }
    if n > 0 && cs[0] == '/' {
        return Err(AssetDirError::NotAChildPath);
    }
    if n > 0 && cs[0] == '.' && (n == 1 || cs[1] == '/') {
        return Err(AssetDirError::NotAChildPath);
    }
    Ok(())
}

/// `/` or `\`.
pub open spec fn is_separator(b: u8) -> bool {
    b == 0x2f || b == 0x5c
}

/// Whether the bytes name a local path rather than a URI or a network path:
/// no leading `//` or `\\`, and no `:` in the first path segment.
pub open spec fn is_local(b: Seq<u8>) -> bool {
    &&& !(b.len() >= 2 && b[0] == 0x2f && b[1] == 0x2f)
    &&& !(b.len() >= 2 && b[0] == 0x5c && b[1] == 0x5c)
    &&& forall|i: int|
        0 <= i < b.len() && (forall|k: int| 0 <= k < i ==> !is_separator(#[trigger] b[k]))
            ==> #[trigger] b[i] != 0x3a
}

/// The bytes before the first `?` or `#`.
pub open spec fn before_query(b: Seq<u8>) -> Seq<u8>
    decreases b.len(),
{
    if b.len() == 0 || b[0] == 0x3f || b[0] == 0x23 {
        Seq::empty()
    } else {
        seq![b[0]] + before_query(b.drop_first())
    }
}

pub open spec fn hex_byte_value(b: u8) -> Option<u8> {
    if 0x30 <= b <= 0x39 {
        Some((b - 0x30) as u8)
    } else if 0x61 <= b <= 0x66 {
        Some((b - 0x61 + 10) as u8)
    } else if 0x41 <= b <= 0x46 {
        Some((b - 0x41 + 10) as u8)
    } else {
        None
    }
}

/// Decode `%XX` escapes once; a `%` without two hexadecimal digits fails.
/// `+` is not a space.
pub open spec fn percent_decode(b: Seq<u8>) -> Option<Seq<u8>>
    decreases b.len(),
{
    if b.len() == 0 {
        Some(Seq::empty())
    } else if b[0] == 0x25 {
        if b.len() < 3 {
            None
        } else {
            match (hex_byte_value(b[1]), hex_byte_value(b[2])) {
                (Some(hi), Some(lo)) => match percent_decode(b.subrange(3, b.len() as int)) {
                    Some(rest) => Some(seq![(hi * 16 + lo) as u8] + rest),
                    None => None,
                },
                _ => None,
            }
        }
    } else {
        match percent_decode(b.drop_first()) {
            Some(rest) => Some(seq![b[0]] + rest),
            None => None,
        }
    }
}

/// `Path::join` on Unix: an absolute path replaces the base; otherwise one
/// separator is added unless the base is empty or already ends with one.
pub open spec fn join_path(base: Seq<char>, path: Seq<char>) -> Seq<char> {
    if path.len() > 0 && path[0] == '/' {
        path
    } else if base.len() == 0 || base.last() == '/' {
        base + path
    } else {
        base + seq!['/'] + path
    }
}

/// `base` joined with `path` as `Path::join` joins them on Unix.
pub fn join_exec(base: &str, path: &str) -> (r: String)
    ensures
        r@ == join_path(base@, path@),
{
    let pc = chars_vec(path);
    if pc.len() > 0 && pc[0] == '/' {
        return String::from_str(path);
    }
    let bc = chars_vec(base);
    let mut out = String::from_str(base);
    if bc.len() > 0 && bc[bc.len() - 1] != '/' {
        push_char(&mut out, '/');
    }
    out.append(path);
    out
}

/// The local file a Markdown image URL refers to, if it is local.
pub open spec fn spec_local_image_path(base: Seq<char>, url: Seq<char>) -> Option<Seq<char>> {
    let raw = encode_utf8(url);
    if !is_local(raw) {
        None
    } else {
        match percent_decode(before_query(raw)) {
            None => None,
            Some(decoded) => if !valid_utf8(decoded) || decoded.len() == 0 || decoded.contains(
                0u8,
            ) || !is_local(decoded) {
                None
            } else {
                Some(join_path(base, decode_utf8(decoded)))
            },
        }
    }
}

/// `String::from_utf8`: the string the bytes encode, when they are valid UTF-8.
#[verifier::external_body]
pub(crate) fn string_from_utf8(bytes: Vec<u8>) -> (r: Option<String>)
    ensures
        r is Some <==> valid_utf8(bytes@),
        r matches Some(s) ==> s@ == decode_utf8(bytes@),
{
    String::from_utf8(bytes).ok()
}

fn is_local_exec(b: &[u8]) -> (r: bool)
    ensures
        r == is_local(b@),
{
    let n = b.len();
    if n >= 2 && ((b[0] == 0x2f && b[1] == 0x2f) || (b[0] == 0x5c && b[1] == 0x5c)) {
        return false;
    }
    let mut i: usize = 0;
    while i < n && !(b[i] == 0x2f || b[i] == 0x5c)
        invariant
            i <= n,
            n == b@.len(),
            forall|k: int| 0 <= k < i ==> !is_separator(#[trigger] b@[k]) && b@[k] != 0x3a,
        decreases n - i,
    {
        if b[i] == 0x3a {
            assert(forall|k: int| 0 <= k < i ==> !is_separator(#[trigger] b@[k]));
            return false;
        }
        i += 1;
    }
    assert forall|j: int|
        0 <= j < b@.len() && (forall|k: int| 0 <= k < j ==> !is_separator(#[trigger] b@[k]))
            implies #[trigger] b@[j] != 0x3a by {
        if j > i {
            assert(!is_separator(b@[i as int]));
        }
    }
    true
}

fn hex_byte_exec(b: u8) -> (r: Option<u8>)
    ensures
        r == hex_byte_value(b),
{
    if 0x30 <= b && b <= 0x39 {
        Some(b - 0x30)
    } else if 0x61 <= b && b <= 0x66 {
        Some(b - 0x61 + 10)
    } else if 0x41 <= b && b <= 0x46 {
        Some(b - 0x41 + 10)
    } else {
        None
    }
}

proof fn lemma_before_query(b: Seq<u8>, i: int)
    requires
        0 <= i <= b.len(),
        forall|k: int| 0 <= k < i ==> b[k] != 0x3f && b[k] != 0x23,
        i == b.len() || b[i] == 0x3f || b[i] == 0x23,
    ensures
        before_query(b) == b.take(i),
    decreases i,
{
    if i > 0 {
        lemma_before_query(b.drop_first(), i - 1);
        assert(seq![b[0]] + b.drop_first().take(i - 1) =~= b.take(i));
    }
}

/// Decode `b[a..e]`.
pub(crate) fn percent_decode_exec(b: &[u8], a: usize, e: usize) -> (r: Option<Vec<u8>>)
    requires
        a <= e <= b@.len(),
    ensures
        match r {
            Some(v) => percent_decode(b@.subrange(a as int, e as int)) == Some(v@),
            None => percent_decode(b@.subrange(a as int, e as int)) is None,
        },
    decreases e - a,
{
    let ghost s = b@.subrange(a as int, e as int);
    if a == e {
        return Some(Vec::new());
    }
    if b[a] == 0x25 {
        if e - a < 3 {
            return None;
        }
        let hi = hex_byte_exec(b[a + 1]);
        let lo = hex_byte_exec(b[a + 2]);
        match (hi, lo) {
            (Some(hi), Some(lo)) => {
                assert(s.subrange(3, s.len() as int) =~= b@.subrange(a + 3, e as int));
                match percent_decode_exec(b, a + 3, e) {
                    Some(rest) => {
                        let mut v = Vec::new();
                        v.push(hi * 16 + lo);
                        let mut rest = rest;
                        let ghost r0 = rest@;
                        v.append(&mut rest);
                        assert(v@ =~= seq![(hi * 16 + lo) as u8] + r0);
                        Some(v)
                    },
                    None => None,
                }
            },
            _ => None,
        }
    } else {
        assert(s.drop_first() =~= b@.subrange(a + 1, e as int));
        match percent_decode_exec(b, a + 1, e) {
            Some(rest) => {
                let mut v = Vec::new();
                v.push(b[a]);
                let mut rest = rest;
                let ghost r0 = rest@;
                v.append(&mut rest);
                assert(v@ =~= seq![b@[a as int]] + r0);
                Some(v)
            },
            None => None,
        }
    }
}

/// Resolve local Markdown image URLs without ever treating a URI or network path
/// as a local image. Decode once so a literal percent escape in a filename survives.
pub fn local_image_path(base: &str, url: &str) -> (r: Option<String>)
    ensures
        opt_string_view(r) == spec_local_image_path(base@, url@),
{
    let raw = url.as_bytes();
    if !is_local_exec(raw) {
        return None;
    }
    let mut end: usize = 0;
    while end < raw.len() && raw[end] != 0x3f && raw[end] != 0x23
        invariant
            end <= raw@.len(),
            forall|k: int| 0 <= k < end ==> raw@[k] != 0x3f && raw@[k] != 0x23,
        decreases raw.len() - end,
    {
        end += 1;
    }
    proof {
        lemma_before_query(raw@, end as int);
        assert(raw@.subrange(0, end as int) =~= raw@.take(end as int));
    }
    let decoded = match percent_decode_exec(raw, 0, end) {
        Some(d) => d,
        None => return None,
    };
    if decoded.len() == 0 || !is_local_exec(decoded.as_slice()) {
        return None;
    }
    assert(percent_decode(before_query(encode_utf8(url@))) == Some(decoded@));
    let mut k: usize = 0;
    while k < decoded.len()
        invariant
            k <= decoded@.len(),
            percent_decode(before_query(encode_utf8(url@))) == Some(decoded@),
            is_local(encode_utf8(url@)),
            forall|j: int| 0 <= j < k ==> decoded@[j] != 0u8,
        decreases decoded.len() - k,
    {
        if decoded[k] == 0 {
            assert(decoded@.contains(0u8));
            return None;
        }
        k += 1;
    }
    let ghost dbytes = decoded@;
    let text = match string_from_utf8(decoded) {
        Some(t) => t,
        None => return None,
    };
    Some(join_exec(base, text.as_str()))
}

pub open spec fn opt_string_view(r: Option<String>) -> Option<Seq<char>> {
    match r {
        Some(s) => Some(s@),
        None => None,
    }
}

/// ASCII punctuation: the printable ASCII characters that are not letters,
/// digits or space.
pub open spec fn is_ascii_punctuation(c: char) -> bool {
    let v = c as u32;
    (33 <= v <= 47) || (58 <= v <= 64) || (91 <= v <= 96) || (123 <= v <= 126)
}


/// Alt text for one character: punctuation is backslash-escaped, controls become spaces.
pub open spec fn escape_alt_char(c: char) -> Seq<char> {
    if is_ascii_punctuation(c) {
        seq!['\\', c]
    } else if is_control(c) {
        seq![' ']
    } else {
        seq![c]
    }
}

pub open spec fn spec_escaped_alt(s: Seq<char>) -> Seq<char>
    decreases s.len(),
{
    if s.len() == 0 {
        Seq::empty()
    } else {
        spec_escaped_alt(s.drop_last()) + escape_alt_char(s.last())
    }
}

/// Markdown alt text that reads as the original name.
pub fn escaped_alt(text: &str) -> (r: String)
    ensures
        r@ == spec_escaped_alt(text@),
{
    let cs = chars_vec(text);
    let mut out: Vec<char> = Vec::new();
    let mut i: usize = 0;
    while i < cs.len()
        invariant
            i <= cs@.len(),
            out@ == spec_escaped_alt(cs@.take(i as int)),
        decreases cs.len() - i,
    {
        let c = cs[i];
        let v = c as u32;
        if (33 <= v && v <= 47) || (58 <= v && v <= 64) || (91 <= v && v <= 96) || (123 <= v && v
            <= 126) {
            out.push('\\');
            out.push(c);
        } else if v <= 0x1f || (0x7f <= v && v <= 0x9f) {
            out.push(' ');
        } else {
            out.push(c);
        }
        assert(cs@.take(i + 1).drop_last() =~= cs@.take(i as int));
        i += 1;
    }
    assert(cs@.take(cs.len() as int) =~= cs@);
    string_from_chars(out.as_slice())
}

/// Characters that may not appear in an asset filename: controls and `<>:"/\|?*`.
pub open spec fn unsafe_filename_char(c: char) -> bool {
    is_control(c) || c == '<' || c == '>' || c == ':' || c == '"' || c == '/' || c == '\\'
        || c == '|' || c == '?' || c == '*'
}

pub open spec fn replace_unsafe(s: Seq<char>) -> Seq<char> {
    Seq::new(s.len(), |i: int| if unsafe_filename_char(s[i]) { '_' } else { s[i] })
}

pub open spec fn trims(c: char) -> bool {
    c == ' ' || c == '.'
}

/// The stem of an asset filename: unsafe characters become `_`, spaces and
/// dots are trimmed from both ends, and an empty result becomes `image`.
pub open spec fn spec_asset_stem(original: Seq<char>) -> Seq<char> {
    let r = replace_unsafe(original);
    if forall|i: int| 0 <= i < r.len() ==> trims(#[trigger] r[i]) {
        seq!['i', 'm', 'a', 'g', 'e']
    } else {
        let a = choose|a: int|
            0 <= a < r.len() && !trims(r[a]) && forall|k: int| 0 <= k < a ==> trims(#[trigger] r[k]);
        let b = choose|b: int|
            0 <= b < r.len() && !trims(r[b]) && forall|k: int|
                b < k < r.len() ==> trims(#[trigger] r[k]);
        r.subrange(a, b + 1)
    }
}

pub fn asset_stem(original: &str) -> (r: String)
    ensures
        r@ == spec_asset_stem(original@),
{
    let cs = chars_vec(original);
    let ghost s = cs@;
    let mut replaced: Vec<char> = Vec::new();
    let mut i: usize = 0;
    while i < cs.len()
        invariant
            i <= cs@.len(),
            s == cs@,
            replaced@ == replace_unsafe(s).take(i as int),
        decreases cs.len() - i,
    {
        let c = cs[i];
        let v = c as u32;
        let bad = v <= 0x1f || (0x7f <= v && v <= 0x9f) || c == '<' || c == '>' || c == ':' || c
            == '"' || c == '/' || c == '\\' || c == '|' || c == '?' || c == '*';
        replaced.push(if bad {
            '_'
        } else {
            c
        });
        assert(replaced@ =~= replace_unsafe(s).take(i + 1));
        i += 1;
    }
    let ghost r = replace_unsafe(s);
    assert(replaced@ =~= r);
    let n = replaced.len();
    let mut a: usize = 0;
    while a < n && (replaced[a] == ' ' || replaced[a] == '.')
        invariant
            a <= n,
            n == r.len(),
            replaced@ == r,
            forall|k: int| 0 <= k < a ==> trims(#[trigger] r[k]),
        decreases n - a,
    {
        a += 1;
    }
    if a == n {
        let w: [char; 5] = ['i', 'm', 'a', 'g', 'e'];
        assert(w@ =~= seq!['i', 'm', 'a', 'g', 'e']);
        return string_from_chars(&w);
    }
    let mut b: usize = n - 1;
    while b > a && (replaced[b] == ' ' || replaced[b] == '.')
        invariant
            a <= b < n,
            n == r.len(),
            replaced@ == r,
            !trims(r[a as int]),
            forall|k: int| b < k < n ==> trims(#[trigger] r[k]),
        decreases b,
    {
        b -= 1;
    }
    let ghost ca = choose|x: int|
        0 <= x < r.len() && !trims(r[x]) && forall|k: int| 0 <= k < x ==> trims(#[trigger] r[k]);
    let ghost cb = choose|x: int|
        0 <= x < r.len() && !trims(r[x]) && forall|k: int| x < k < r.len() ==> trims(#[trigger] r[k]);
    assert(0 <= ca < r.len() && !trims(r[ca]) && forall|k: int|
        0 <= k < ca ==> trims(#[trigger] r[k]));
    assert(0 <= cb < r.len() && !trims(r[cb]) && forall|k: int|
        cb < k < r.len() ==> trims(#[trigger] r[k]));
    assert(ca == a) by {
        if ca < a {
            assert(trims(r[ca]));
        }
        if ca > a {
            assert(trims(r[a as int]));
        }
    }
    assert(cb == b) by {
        if cb < b {
            assert(trims(r[b as int]));
        }
        if cb > b {
            assert(trims(r[cb]));
        }
    }
    let mut out: Vec<char> = Vec::new();
    let mut k = a;
    while k <= b
        invariant
            a <= k <= b + 1,
            b < n,
            n == r.len(),
            replaced@ == r,
            out@ == r.subrange(a as int, k as int),
        decreases b + 1 - k,
    {
        out.push(replaced[k]);
        assert(r.subrange(a as int, k + 1) =~= r.subrange(a as int, k as int).push(r[k as int]));
        k += 1;
    }
    string_from_chars(out.as_slice())
}

} // verus!

verus! {

// ---------------------------------------------------------------------------
// Importing images.

/// An image format as its leading bytes identify it.
#[derive(Clone, Copy, Debug, PartialEq, Eq, Structural)]
pub enum ImageKind {
    Png,
    Jpeg,
    Gif,
    WebP,
    /// Any other format, or none recognized.
    Other,
}

pub open spec fn starts_with_bytes(b: Seq<u8>, p: Seq<u8>) -> bool {
    p.len() <= b.len() && b.subrange(0, p.len() as int) == p
}

/// The kind `image::guess_format` reports for these bytes: its magic-byte
/// table tries PNG, JPEG, the two GIF signatures and then RIFF/WebP before
/// any other format, and these signatures exclude one another.
pub open spec fn spec_image_kind(b: Seq<u8>) -> ImageKind {
    if starts_with_bytes(b, seq![0x89u8, 0x50, 0x4e, 0x47, 0x0d, 0x0a, 0x1a, 0x0a]) {
        ImageKind::Png
    } else if starts_with_bytes(b, seq![0xffu8, 0xd8, 0xff]) {
        ImageKind::Jpeg
    } else if starts_with_bytes(b, seq![0x47u8, 0x49, 0x46, 0x38, 0x39, 0x61]) || starts_with_bytes(
        b,
        seq![0x47u8, 0x49, 0x46, 0x38, 0x37, 0x61],
    ) {
        ImageKind::Gif
    } else if b.len() >= 12 && b.subrange(0, 4) == seq![0x52u8, 0x49, 0x46, 0x46] && b.subrange(8, 12)
        == seq![0x57u8, 0x45, 0x42, 0x50] {
        ImageKind::WebP
    } else {
        ImageKind::Other
    }
}

/// `image::guess_format`, by the image's leading bytes.
#[verifier::external_body]
fn guess_image_kind(bytes: &[u8]) -> (r: ImageKind)
    ensures
        r == spec_image_kind(bytes@),
{
    match image::guess_format(bytes) {
        Ok(image::ImageFormat::Png) => ImageKind::Png,
        Ok(image::ImageFormat::Jpeg) => ImageKind::Jpeg,
        Ok(image::ImageFormat::Gif) => ImageKind::Gif,
        Ok(image::ImageFormat::WebP) => ImageKind::WebP,
        _ => ImageKind::Other,
    }
}

/// Why an image is not imported.
#[derive(Clone, Copy, Debug, PartialEq, Eq, Structural)]
pub enum ImportError {
    /// Unsupported image format; use PNG, JPEG, GIF, or WebP.
    UnsupportedFormat,
    /// Invalid image data; could not decode the image.
    InvalidData,
}

pub open spec fn kind_extension(k: ImageKind) -> Option<Seq<char>> {
    match k {
        ImageKind::Png => Some(seq!['p', 'n', 'g']),
        ImageKind::Jpeg => Some(seq!['j', 'p', 'g']),
        ImageKind::Gif => Some(seq!['g', 'i', 'f']),
        ImageKind::WebP => Some(seq!['w', 'e', 'b', 'p']),
        ImageKind::Other => None,
    }
}

/// Whether the `image` crate decodes these bytes as an image of this kind,
/// within its default allocation limits.
pub uninterp spec fn decodable(bytes: Seq<u8>, kind: ImageKind) -> bool;

/// `image::ImageReader::with_format(..).decode()` on the bytes, in the named
/// format: whether the decoder accepts them. What makes data decodable is
/// the decoder's and is left to the name `decodable`.
#[verifier::external_body]
fn decodes_as(bytes: &[u8], kind: ImageKind) -> (r: bool)
    requires
        kind != ImageKind::Other,
    ensures
        r == decodable(bytes@, kind),
{
    let format = match kind {
        ImageKind::Png => image::ImageFormat::Png,
        ImageKind::Jpeg => image::ImageFormat::Jpeg,
        ImageKind::Gif => image::ImageFormat::Gif,
        ImageKind::WebP => image::ImageFormat::WebP,
        ImageKind::Other => return false,
    };
    image::ImageReader::with_format(std::io::Cursor::new(bytes), format).decode().is_ok()
}

/// Check image bytes before they are imported or exported: the format must be
/// PNG, JPEG, GIF or WebP by the leading bytes, and the data must decode in
/// that format. Gives the extension the image is stored under.
pub fn validated_image(bytes: &[u8]) -> (r: Result<String, ImportError>)
    ensures
        match kind_extension(spec_image_kind(bytes@)) {
            None => r == Err::<String, ImportError>(ImportError::UnsupportedFormat),
            Some(e) => if decodable(bytes@, spec_image_kind(bytes@)) {
                r matches Ok(s) && s@ == e
            } else {
                r == Err::<String, ImportError>(ImportError::InvalidData)
            },
        },
{
    let kind = guess_image_kind(bytes);
    let letters: Vec<char> = match kind {
        ImageKind::Png => vec!['p', 'n', 'g'],
        ImageKind::Jpeg => vec!['j', 'p', 'g'],
        ImageKind::Gif => vec!['g', 'i', 'f'],
        ImageKind::WebP => vec!['w', 'e', 'b', 'p'],
        ImageKind::Other => return Err(ImportError::UnsupportedFormat),
    };
    proof {
        assert(letters@ == kind_extension(spec_image_kind(bytes@))->0);
    }
    if decodes_as(bytes, kind) {
        Ok(string_from_chars(letters.as_slice()))
    } else {
        Err(ImportError::InvalidData)
    }
}

/// The `index`-th candidate filename for an asset: `stem.ext`, then
/// `stem-1.ext`, `stem-2.ext`, ...
pub open spec fn spec_asset_file_name(stem: Seq<char>, extension: Seq<char>, index: nat) -> Seq<char> {
    if index == 0 {
        stem + seq!['.'] + extension
    } else {
        stem + seq!['-'] + crate::text::decimal(index) + seq!['.'] + extension
    }
}

pub fn asset_file_name(stem: &str, extension: &str, index: u64) -> (r: String)
    ensures
        r@ == spec_asset_file_name(stem@, extension@, index as nat),
{
    let mut s = String::from_str(stem);
    if index > 0 {
        push_char(&mut s, '-');
        let digits = crate::text::decimal_exec(index);
        let d = string_from_chars(digits.as_slice());
        s.append(d.as_str());
    }
    push_char(&mut s, '.');
    s.append(extension);
    s
}

/// What came of creating a candidate asset file exclusively.
#[derive(Clone, Copy, Debug, PartialEq, Eq, Structural)]
pub enum CreateOutcome {
    /// The file was created; it is this import's own.
    Created,
    /// A file of that name exists already, a regular file holding exactly the
    /// image's bytes or something else (other bytes, a directory, a symlink).
    Exists { same_regular_file: bool },
}

/// The next step of placing one image among the existing assets.
#[derive(Clone, Copy, Debug, PartialEq, Eq, Structural)]
pub enum CollisionStep {
    /// Write the image into the file just created.
    WriteNew,
    /// Use the existing identical file as it is.
    Reuse,
    /// Try the candidate name with this index.
    Try(u64),
    /// Every index is taken: too many image name collisions.
    TooManyCollisions,
}

/// The decision after trying the `index`-th candidate name: a new file is
/// written, an identical regular file is reused, anything else moves on to the
/// next index until the counter runs out. An existing file is never written.
pub fn collision_step(index: u64, outcome: CreateOutcome) -> (r: CollisionStep)
    ensures
        r == match outcome {
            CreateOutcome::Created => CollisionStep::WriteNew,
            CreateOutcome::Exists { same_regular_file } => if same_regular_file {
                CollisionStep::Reuse
            } else if index < u64::MAX {
                CollisionStep::Try((index + 1) as u64)
            } else {
                CollisionStep::TooManyCollisions
            },
        },
{
    match outcome {
        CreateOutcome::Created => CollisionStep::WriteNew,
        CreateOutcome::Exists { same_regular_file } => {
            if same_regular_file {
                CollisionStep::Reuse
            } else {
                match index.checked_add(1) {
                    Some(next) => CollisionStep::Try(next),
                    None => CollisionStep::TooManyCollisions,
                }
            }
        },
    }
}

/// A byte of a URL path: unreserved ASCII stays, anything else becomes `%XX`.
pub open spec fn encode_byte(b: u8) -> Seq<char> {
    if (0x30 <= b <= 0x39) || (0x41 <= b <= 0x5a) || (0x61 <= b <= 0x7a) || b == 0x2d || b == 0x2e
        || b == 0x5f || b == 0x7e {
        seq![b as char]
    } else {
        seq!['%', upper_hex((b / 16) as nat), upper_hex((b % 16) as nat)]
    }
}

pub open spec fn upper_hex(n: nat) -> char {
    if n < 10 {
        ((n + 48) as u8) as char
    } else {
        ((n + 55) as u8) as char
    }
}

pub open spec fn encode_bytes(b: Seq<u8>) -> Seq<char>
    decreases b.len(),
{
    if b.len() == 0 {
        Seq::empty()
    } else {
        encode_bytes(b.drop_last()) + encode_byte(b.last())
    }
}

/// The components of a relative path: its `/`-separated names, without
/// empty ones and without `.`.
pub open spec fn path_names(p: Seq<Seq<char>>) -> Seq<Seq<char>> {
    p.filter(|n: Seq<char>| n.len() > 0 && n != seq!['.'])
}

/// The names joined with `/`, each percent-encoded.
pub open spec fn encode_names(names: Seq<Seq<char>>) -> Seq<char>
    decreases names.len(),
{
    if names.len() == 0 {
        Seq::empty()
    } else if names.len() == 1 {
        encode_bytes(encode_utf8(names[0]))
    } else {
        encode_names(names.drop_last()) + seq!['/'] + encode_bytes(encode_utf8(names.last()))
    }
}

/// `s` split at every `/`.
pub open spec fn slash_pieces(s: Seq<char>) -> Seq<Seq<char>>
    decreases s.len(),
{
    if s.len() == 0 {
        seq![Seq::empty()]
    } else {
        let rest = slash_pieces(s.drop_last());
        if s.last() == '/' {
            rest.push(Seq::empty())
        } else {
            rest.update(rest.len() - 1, rest.last().push(s.last()))
        }
    }
}

proof fn lemma_slash_pieces_len(s: Seq<char>)
    ensures
        slash_pieces(s).len() >= 1,
    decreases s.len(),
{
    if s.len() > 0 {
        lemma_slash_pieces_len(s.drop_last());
    }
}

fn slash_pieces_exec(text: &str) -> (r: Vec<String>)
    ensures
        crate::markdown::strings_view(r@) == slash_pieces(text@),
{
    let cs = chars_vec(text);
    let mut done: Vec<String> = Vec::new();
    let mut cur = String::new();
    let mut i: usize = 0;
    while i < cs.len()
        invariant
            i <= cs@.len(),
            cs@ == text@,
            crate::markdown::strings_view(done@).push(cur@) == slash_pieces(cs@.take(i as int)),
        decreases cs.len() - i,
    {
        let ghost before = crate::markdown::strings_view(done@).push(cur@);
        assert(cs@.take(i + 1).drop_last() =~= cs@.take(i as int));
        proof {
            lemma_slash_pieces_len(cs@.take(i as int));
        }
        if cs[i] == '/' {
            done.push(cur);
            cur = String::new();
            assert(crate::markdown::strings_view(done@).push(cur@) =~= before.push(Seq::empty()));
        } else {
            push_char(&mut cur, cs[i]);
            assert(crate::markdown::strings_view(done@).push(cur@) =~= before.update(
                before.len() - 1,
                before.last().push(cs@[i as int]),
            ));
        }
        i += 1;
    }
    assert(cs@.take(cs@.len() as int) =~= cs@);
    done.push(cur);
    done
}

/// The Markdown URL of an asset in directory `dir` (relative, as validated).
pub open spec fn spec_encoded_path(dir: Seq<char>, file: Seq<char>) -> Seq<char> {
    encode_names(path_names(slash_pieces(dir + seq!['/'] + file)))
}

fn upper_hex_exec(n: u8) -> (c: char)
    requires
        n < 16,
    ensures
        c == upper_hex(n as nat),
{
    if n < 10 {
        (n + 48) as char
    } else {
        (n + 55) as char
    }
}

fn push_encoded(out: &mut String, b: &[u8])
    ensures
        final(out)@ == old(out)@ + encode_bytes(b@),
{
    let mut i: usize = 0;
    while i < b.len()
        invariant
            i <= b@.len(),
            out@ == old(out)@ + encode_bytes(b@.take(i as int)),
        decreases b.len() - i,
    {
        let x = b[i];
        let ghost before = out@;
        if (0x30 <= x && x <= 0x39) || (0x41 <= x && x <= 0x5a) || (0x61 <= x && x <= 0x7a) || x
            == 0x2d || x == 0x2e || x == 0x5f || x == 0x7e {
            push_char(out, x as char);
        } else {
            push_char(out, '%');
            push_char(out, upper_hex_exec(x / 16));
            push_char(out, upper_hex_exec(x % 16));
        }
        assert(b@.take(i + 1).drop_last() =~= b@.take(i as int));
        assert(out@ =~= before + encode_byte(x));
        i += 1;
    }
    assert(b@.take(b@.len() as int) =~= b@);
}

/// The asset's path relative to the document, as a Markdown URL.
pub fn encoded_path(dir: &str, file: &str) -> (r: String)
    ensures
        r@ == spec_encoded_path(dir@, file@),
{
    let mut joined = String::from_str(dir);
    push_char(&mut joined, '/');
    joined.append(file);
    let parts = slash_pieces_exec(joined.as_str());
    let ghost pv = crate::markdown::strings_view(parts@);
    let ghost keep = |n: Seq<char>| n.len() > 0 && n != seq!['.'];
    let mut out = String::new();
    let mut any = false;
    let mut k: usize = 0;
    let dot: [char; 1] = ['.'];
    assert(dot@ =~= seq!['.']);
    while k < parts.len()
        invariant
            k <= parts@.len(),
            pv == crate::markdown::strings_view(parts@),
            keep == (|n: Seq<char>| n.len() > 0 && n != seq!['.']),
            dot@ == seq!['.'],
            out@ == encode_names(pv.take(k as int).filter(keep)),
            any == (pv.take(k as int).filter(keep).len() > 0),
        decreases parts.len() - k,
    {
        let ghost before = pv.take(k as int).filter(keep);
        let cs = chars_vec(parts[k].as_str());
        let kept = cs.len() > 0 && !crate::text::chars_equal(cs.as_slice(), &dot);
        assert(pv.take(k + 1).filter(keep) == if keep(pv[k as int]) {
            before.push(pv[k as int])
        } else {
            before
        }) by {
            reveal(Seq::filter);
            assert(pv.take(k + 1).drop_last() =~= pv.take(k as int));
        }
        if kept {
            if any {
                push_char(&mut out, '/');
            }
            push_encoded(&mut out, parts[k].as_str().as_bytes());
            assert(before.push(pv[k as int]).drop_last() =~= before);
        }
        if kept {
            any = true;
        }
        k += 1;
    }
    assert(pv.take(parts@.len() as int) =~= pv);
    assert(joined@ == dir@ + seq!['/'] + file@);
    assert(pv == slash_pieces(dir@ + seq!['/'] + file@));
    assert(pv.filter(keep) == path_names(pv));
    out
}

/// The Markdown for one imported image: its original name as alt text and
/// its encoded asset path as URL.
pub open spec fn spec_image_markdown(original: Seq<char>, dir: Seq<char>, file: Seq<char>) -> Seq<char> {
    seq!['!', '['] + spec_escaped_alt(original) + seq![']', '('] + spec_encoded_path(dir, file) + seq![')']
}

pub fn image_markdown(original: &str, dir: &str, file: &str) -> (r: String)
    ensures
        r@ == spec_image_markdown(original@, dir@, file@),
{
    let mut s = String::new();
    push_char(&mut s, '!');
    push_char(&mut s, '[');
    let alt = escaped_alt(original);
    s.append(alt.as_str());
    push_char(&mut s, ']');
    push_char(&mut s, '(');
    let url = encoded_path(dir, file);
    s.append(url.as_str());
    push_char(&mut s, ')');
    assert(s@ =~= spec_image_markdown(original@, dir@, file@));
    s
}

/// An image assets directory is accepted exactly when it is not blank, holds
/// no backslash or drive colon, does not start at the root or with a `.`
/// component, and has no `..` component: it always stays inside the
/// document's directory.
pub proof fn law_assets_dir_stays_below_the_document(s: Seq<char>)
    ensures
        valid_assets_dir(s) <==> {
            &&& !all_whitespace_from(s, 0)
            &&& forall|i: int| 0 <= i < s.len() ==> #[trigger] s[i] != '\\' && s[i] != ':'
            &&& !(s.len() > 0 && s[0] == '/')
            &&& !(s.len() > 0 && s[0] == '.' && (s.len() == 1 || s[1] == '/'))
            &&& forall|i: int| 0 <= i < s.len() ==> !dotdot_segment_at(s, i)
        },
{
}


// ---------------------------------------------------------------------------
// A link written for names resolves to them again.

/// Names joined with `/`.
pub open spec fn slash_join(names: Seq<Seq<char>>) -> Seq<char>
    decreases names.len(),
{
    if names.len() == 0 {
        Seq::empty()
    } else if names.len() == 1 {
        names[0]
    } else {
        slash_join(names.drop_last()) + seq!['/'] + names.last()
    }
}

/// A character a path component may hold for its link to resolve back to it.
pub open spec fn plain_name_char(c: char) -> bool {
    c != '/' && c != '\\' && c != ':' && c != '\0'
}

pub open spec fn ascii_bytes(cs: Seq<char>) -> Seq<u8> {
    cs.map_values(|c: char| c as u8)
}

pub open spec fn unreserved(b: u8) -> bool {
    (0x30 <= b <= 0x39) || (0x41 <= b <= 0x5a) || (0x61 <= b <= 0x7a) || b == 0x2d || b == 0x2e
        || b == 0x5f || b == 0x7e
}

/// A character of an encoded link: ASCII, and an unreserved one, `%`, an
/// upper-case hexadecimal digit or `/`.
pub open spec fn link_char(c: char) -> bool {
    &&& (c as u32) < 128
    &&& unreserved(c as u8) || c == '%' || c == '/'
}

pub open spec fn prefixed(p: Seq<u8>, r: Option<Seq<u8>>) -> Option<Seq<u8>> {
    match r {
        Some(x) => Some(p + x),
        None => None,
    }
}

proof fn lemma_encode_byte_chars(b: u8)
    ensures
        encode_byte(b).len() >= 1,
        forall|i: int|
            0 <= i < encode_byte(b).len() ==> link_char(#[trigger] encode_byte(b)[i]) && encode_byte(b)[i]
                != '/',
        unreserved(b) ==> encode_byte(b) == seq![b as char],
        !unreserved(b) ==> encode_byte(b) == seq!['%', upper_hex((b / 16) as nat), upper_hex((b % 16) as nat)],
{
    let hi = (b / 16) as nat;
    let lo = (b % 16) as nat;
    assert(hi < 16 && lo < 16);
}

proof fn lemma_encode_bytes_chars(bs: Seq<u8>)
    ensures
        encode_bytes(bs).len() >= bs.len(),
        forall|i: int|
            0 <= i < encode_bytes(bs).len() ==> link_char(#[trigger] encode_bytes(bs)[i]) && encode_bytes(bs)[i]
                != '/',
    decreases bs.len(),
{
    if bs.len() > 0 {
        lemma_encode_bytes_chars(bs.drop_last());
        lemma_encode_byte_chars(bs.last());
        let a = encode_bytes(bs.drop_last());
        let e = encode_byte(bs.last());
        assert forall|i: int| 0 <= i < encode_bytes(bs).len() implies link_char(#[trigger] encode_bytes(bs)[i])
            && encode_bytes(bs)[i] != '/' by {
            if i < a.len() {
                assert(encode_bytes(bs)[i] == a[i]);
            } else {
                assert(encode_bytes(bs)[i] == e[i - a.len()]);
            }
        }
    }
}

/// Bytes of a UTF-8 encoding below `0x80` are characters of the text, the
/// first byte of a nonempty text among them when it is ASCII.
proof fn lemma_utf8_low_bytes(s: Seq<char>)
    ensures
        s.len() > 0 ==> encode_utf8(s).len() > 0,
        s.len() > 0 && encode_utf8(s)[0] < 0x80 ==> encode_utf8(s)[0] as u32 == s[0] as u32,
        forall|i: int|
            0 <= i < encode_utf8(s).len() && #[trigger] encode_utf8(s)[i] < 0x80 ==> exists|j: int|
                0 <= j < s.len() && s[j] as u32 == encode_utf8(s)[i] as u32,
    decreases s.len(),
{
    if s.len() > 0 {
        let v = s[0] as u32;
        let e = encode_scalar(v);
        let rest = s.drop_first();
        lemma_utf8_low_bytes(rest);
        vstd::utf8::char_is_scalar(s[0]);
        assert(forall|x: u32| #![auto] (0xC0u8 | ((x >> 6) & 0x1F) as u8) >= 0x80u8) by (bit_vector);
        assert(forall|x: u32| #![auto] (0xE0u8 | ((x >> 12) & 0x0F) as u8) >= 0x80u8) by (bit_vector);
        assert(forall|x: u32| #![auto] (0xF0u8 | ((x >> 18) & 0x7) as u8) >= 0x80u8) by (bit_vector);
        assert(forall|x: u32| #![auto] (0x80u8 | (x & 0x3F) as u8) >= 0x80u8) by (bit_vector);
        assert(forall|x: u32| #![auto] (0x80u8 | ((x >> 6) & 0x3F) as u8) >= 0x80u8) by (bit_vector);
        assert(forall|x: u32| #![auto] (0x80u8 | ((x >> 12) & 0x3F) as u8) >= 0x80u8) by (bit_vector);
        assert(forall|x: u32| x <= 0x7F ==> #[trigger] ((x & 0x7F) as u8) as u32 == x) by (bit_vector);
        assert(e.len() >= 1);
        assert(forall|i: int| 0 <= i < e.len() && #[trigger] e[i] < 0x80 ==> e[i] as u32 == v);
        assert(encode_utf8(s) == e + encode_utf8(rest));
        assert forall|i: int|
            0 <= i < encode_utf8(s).len() && #[trigger] encode_utf8(s)[i] < 0x80 implies exists|j: int|
                0 <= j < s.len() && s[j] as u32 == encode_utf8(s)[i] as u32 by {
            if i < e.len() {
                assert(encode_utf8(s)[i] == e[i]);
                assert(s[0] as u32 == encode_utf8(s)[i] as u32);
            } else {
                assert(encode_utf8(s)[i] == encode_utf8(rest)[i - e.len()]);
                let j = choose|j: int| 0 <= j < rest.len() && rest[j] as u32 == encode_utf8(rest)[i - e.len()] as u32;
                assert(s[j + 1] == rest[j]);
            }
        }
    }
}

proof fn lemma_decode_escaped(b: u8, rest: Seq<u8>)
    ensures
        percent_decode(ascii_bytes(encode_byte(b)) + rest) == prefixed(seq![b], percent_decode(rest)),
{
    lemma_encode_byte_chars(b);
    let x = ascii_bytes(encode_byte(b)) + rest;
    if unreserved(b) {
        assert(ascii_bytes(encode_byte(b)) =~= seq![b]);
        assert(x.drop_first() =~= rest);
        assert(x[0] == b);
    } else {
        let hi = (b / 16) as nat;
        let lo = (b % 16) as nat;
        assert(ascii_bytes(encode_byte(b)) =~= seq![0x25u8, upper_hex(hi) as u8, upper_hex(lo) as u8]);
        assert(x[0] == 0x25u8);
        assert(x[1] == upper_hex(hi) as u8);
        assert(x[2] == upper_hex(lo) as u8);
        assert(hex_byte_value(x[1]) == Some(hi as u8));
        assert(hex_byte_value(x[2]) == Some(lo as u8));
        assert(x.subrange(3, x.len() as int) =~= rest);
        assert((hi as u8 * 16 + lo as u8) as u8 == b);
        assert(seq![b] =~= seq![(hi as u8 * 16 + lo as u8) as u8]);
    }
}

proof fn lemma_decode_bytes(bs: Seq<u8>, rest: Seq<u8>)
    ensures
        percent_decode(ascii_bytes(encode_bytes(bs)) + rest) == prefixed(bs, percent_decode(rest)),
    decreases bs.len(),
{
    if bs.len() == 0 {
        assert(ascii_bytes(encode_bytes(bs)) + rest =~= rest);
        match percent_decode(rest) {
            Some(r) => assert(bs + r =~= r),
            None => {},
        }
    } else {
        let a = ascii_bytes(encode_bytes(bs.drop_last()));
        let e = ascii_bytes(encode_byte(bs.last()));
        assert(ascii_bytes(encode_bytes(bs)) =~= a + e);
        assert(a + e + rest =~= a + (e + rest));
        lemma_decode_bytes(bs.drop_last(), e + rest);
        lemma_decode_escaped(bs.last(), rest);
        match percent_decode(rest) {
            Some(r) => assert(bs.drop_last() + (seq![bs.last()] + r) =~= bs + r),
            None => {},
        }
    }
}

proof fn lemma_slash_byte(rest: Seq<u8>)
    ensures
        percent_decode(seq![0x2fu8] + rest) == prefixed(seq![0x2fu8], percent_decode(rest)),
        encode_utf8(seq!['/']) == seq![0x2fu8],
{
    assert((seq![0x2fu8] + rest).drop_first() =~= rest);
    assert((seq![0x2fu8] + rest)[0] == 0x2fu8);
    assert(seq!['/'].drop_first() =~= Seq::<char>::empty());
    assert('/' as u32 == 0x2fu32);
    assert((0x2fu32 & 0x7F) as u8 == 0x2fu8) by (bit_vector);
    assert(encode_scalar(0x2fu32) == seq![0x2fu8]);
    assert(encode_utf8(Seq::<char>::empty()) == Seq::<u8>::empty());
    assert(encode_utf8(seq!['/']) == encode_scalar(0x2fu32) + encode_utf8(Seq::<char>::empty()));
    assert(encode_utf8(seq!['/']) =~= seq![0x2fu8]);
}

proof fn lemma_decode_names(names: Seq<Seq<char>>, rest: Seq<u8>)
    requires
        names.len() >= 1,
    ensures
        percent_decode(ascii_bytes(encode_names(names)) + rest) == prefixed(
            encode_utf8(slash_join(names)),
            percent_decode(rest),
        ),
    decreases names.len(),
{
    if names.len() == 1 {
        lemma_decode_bytes(encode_utf8(names[0]), rest);
    } else {
        let init = names.drop_last();
        let a = ascii_bytes(encode_names(init));
        let e = ascii_bytes(encode_bytes(encode_utf8(names.last())));
        assert(ascii_bytes(encode_names(names)) =~= a + seq![0x2fu8] + e);
        assert(a + seq![0x2fu8] + e + rest =~= a + (seq![0x2fu8] + (e + rest)));
        lemma_decode_names(init, seq![0x2fu8] + (e + rest));
        lemma_slash_byte(e + rest);
        lemma_decode_bytes(encode_utf8(names.last()), rest);
        crate::text_input::lemma_encode_concat(slash_join(init), seq!['/']);
        crate::text_input::lemma_encode_concat(slash_join(init) + seq!['/'], names.last());
        match percent_decode(rest) {
            Some(r) => {
                assert(encode_utf8(slash_join(init)) + (seq![0x2fu8] + (encode_utf8(names.last()) + r))
                    =~= encode_utf8(slash_join(names)) + r);
            },
            None => {},
        }
    }
}

proof fn lemma_before_query_whole(b: Seq<u8>)
    requires
        forall|i: int| 0 <= i < b.len() ==> #[trigger] b[i] != 0x3f && b[i] != 0x23,
    ensures
        before_query(b) == b,
    decreases b.len(),
{
    if b.len() > 0 {
        assert forall|i: int| 0 <= i < b.drop_first().len() implies #[trigger] b.drop_first()[i] != 0x3f
            && b.drop_first()[i] != 0x23 by {
            assert(b.drop_first()[i] == b[i + 1]);
        }
        lemma_before_query_whole(b.drop_first());
        assert(seq![b[0]] + b.drop_first() =~= b);
    }
}

proof fn lemma_encode_names_chars(names: Seq<Seq<char>>)
    ensures
        forall|i: int| 0 <= i < encode_names(names).len() ==> link_char(#[trigger] encode_names(names)[i]),
        names.len() >= 1 && names[0].len() > 0 ==> encode_names(names).len() > 0 && encode_names(names)[0]
            != '/',
    decreases names.len(),
{
    if names.len() == 1 {
        lemma_encode_bytes_chars(encode_utf8(names[0]));
        lemma_utf8_low_bytes(names[0]);
    } else if names.len() > 1 {
        let init = names.drop_last();
        lemma_encode_names_chars(init);
        let a = encode_names(init);
        let e = encode_bytes(encode_utf8(names.last()));
        lemma_encode_bytes_chars(encode_utf8(names.last()));
        assert(encode_names(names) == a + seq!['/'] + e);
        assert forall|i: int| 0 <= i < encode_names(names).len() implies link_char(
            #[trigger] encode_names(names)[i],
        ) by {
            if i < a.len() {
                assert(encode_names(names)[i] == a[i]);
            } else if i > a.len() {
                assert(encode_names(names)[i] == e[i - a.len() - 1]);
            }
        }
        assert(init[0] == names[0]);
    }
}

proof fn lemma_slash_join_chars(names: Seq<Seq<char>>)
    requires
        forall|k: int, j: int|
            0 <= k < names.len() && 0 <= j < names[k].len() ==> plain_name_char(#[trigger] names[k][j]),
    ensures
        forall|i: int|
            0 <= i < slash_join(names).len() ==> {
                let c = #[trigger] slash_join(names)[i];
                c != '\\' && c != ':' && c != '\0'
            },
        names.len() >= 1 && names[0].len() > 0 ==> slash_join(names).len() > 0 && slash_join(names)[0]
            == names[0][0],
    decreases names.len(),
{
    if names.len() > 1 {
        let init = names.drop_last();
        assert forall|k: int, j: int| 0 <= k < init.len() && 0 <= j < init[k].len() implies plain_name_char(
            #[trigger] init[k][j],
        ) by {
            assert(init[k] == names[k]);
        }
        lemma_slash_join_chars(init);
        let a = slash_join(init);
        let l = names.last();
        assert(slash_join(names) == a + seq!['/'] + l);
        assert forall|i: int| 0 <= i < slash_join(names).len() implies {
            let c = #[trigger] slash_join(names)[i];
            c != '\\' && c != ':' && c != '\0'
        } by {
            if i < a.len() {
                assert(slash_join(names)[i] == a[i]);
            } else if i > a.len() {
                assert(slash_join(names)[i] == l[i - a.len() - 1]);
                assert(plain_name_char(names[names.len() - 1][i - a.len() - 1]));
            }
        }
        assert(init[0] == names[0]);
    } else if names.len() == 1 {
        assert forall|i: int| 0 <= i < slash_join(names).len() implies {
            let c = #[trigger] slash_join(names)[i];
            c != '\\' && c != ':' && c != '\0'
        } by {
            assert(plain_name_char(names[0][i]));
        }
    }
}

/// A link written for a relative path (`encoded_path` writes one for the path's
/// names) resolves, by `local_image_path`, to that path below the base: the
/// percent-encoding and the single decoding are inverse, so names holding
/// `#`, `%`, `?`, brackets, spaces or any Unicode survive.
pub proof fn law_encoded_link_resolves_to_its_names(base: Seq<char>, names: Seq<Seq<char>>)
    requires
        names.len() >= 1,
        forall|k: int| 0 <= k < names.len() ==> (#[trigger] names[k]).len() > 0,
        forall|k: int, j: int|
            0 <= k < names.len() && 0 <= j < names[k].len() ==> plain_name_char(#[trigger] names[k][j]),
    ensures
        spec_local_image_path(base, encode_names(names)) == Some(join_path(base, slash_join(names))),
{
    let url = encode_names(names);
    lemma_encode_names_chars(names);
    assert(vstd::utf8::is_ascii_chars(url)) by {
        assert forall|i: int| 0 <= i < url.len() implies '\0' <= #[trigger] url[i] <= '\u{7f}' by {
            assert(link_char(url[i]));
            vstd::utf8::char_u32_cast(url[i], url[i] as u32);
            assert(('\u{7f}' as u32) == 0x7fu32);
        }
    }
    vstd::utf8::is_ascii_chars_encode_utf8(url);
    let raw = encode_utf8(url);
    assert(raw =~= ascii_bytes(url)) by {
        assert forall|i: int| 0 <= i < raw.len() implies raw[i] == ascii_bytes(url)[i] by {
            assert(url[i] as u8 == raw[i]);
        }
    }
    assert forall|i: int| 0 <= i < raw.len() implies {
        &&& #[trigger] raw[i] != 0x3f && raw[i] != 0x23
        &&& raw[i] != 0x3a && raw[i] != 0x5c
    } by {
        assert(link_char(url[i]));
        assert(raw[i] == url[i] as u8);
    }
    assert(names[0].len() > 0);
    assert(raw[0] != 0x2f) by {
        assert(raw[0] == url[0] as u8);
        assert(link_char(url[0]));
    }
    assert(is_local(raw));
    lemma_before_query_whole(raw);
    lemma_decode_names(names, Seq::empty());
    assert(raw + Seq::<u8>::empty() =~= raw);
    let sj = slash_join(names);
    let decoded = encode_utf8(sj);
    assert(percent_decode(Seq::<u8>::empty()) == Some(Seq::<u8>::empty()));
    assert(decoded + Seq::<u8>::empty() =~= decoded);
    assert(percent_decode(before_query(raw)) == Some(decoded));
    vstd::utf8::encode_utf8_valid_utf8(sj);
    vstd::utf8::encode_utf8_decode_utf8(sj);
    lemma_slash_join_chars(names);
    lemma_utf8_low_bytes(sj);
    assert(!decoded.contains(0u8)) by {
        if decoded.contains(0u8) {
            let i = choose|i: int| 0 <= i < decoded.len() && decoded[i] == 0u8;
            let j = choose|j: int| 0 <= j < sj.len() && sj[j] as u32 == decoded[i] as u32;
            vstd::utf8::char_u32_cast(sj[j], 0u32);
            assert((0u32 as char) == '\0');
            assert(sj[j] == '\0');
        }
    }
    assert forall|i: int| 0 <= i < decoded.len() implies #[trigger] decoded[i] != 0x3a by {
        if decoded[i] == 0x3a {
            let j = choose|j: int| 0 <= j < sj.len() && sj[j] as u32 == decoded[i] as u32;
            vstd::utf8::char_u32_cast(sj[j], 0x3au32);
            assert((0x3au32 as char) == ':');
            assert(sj[j] == ':');
        }
    }
    assert(decoded[0] != 0x2f && decoded[0] != 0x5c) by {
        assert(plain_name_char(names[0][0]));
    }
    assert(is_local(decoded));
}


/// The Markdown inserted for an imported image is an image reference, not a
/// link: `![`, the escaped alt text, `](`, the encoded asset path and `)`.
pub proof fn law_imported_image_is_an_image_reference(original: Seq<char>, dir: Seq<char>, file: Seq<char>)
    ensures
        ({
            let r = spec_image_markdown(original, dir, file);
            let alt = spec_escaped_alt(original);
            let a = alt.len() as int;
            let url = spec_encoded_path(dir, file);
            let u = url.len() as int;
            &&& r.len() == alt.len() + url.len() + 5
            &&& r[0] == '!' && r[1] == '['
            &&& r.subrange(2, 2 + a) == alt
            &&& r[2 + a] == ']' && r[3 + a] == '('
            &&& r.subrange(4 + a, 4 + a + u) == url
            &&& r[r.len() - 1] == ')'
        }),
{
    let r = spec_image_markdown(original, dir, file);
    let alt = spec_escaped_alt(original);
    let url = spec_encoded_path(dir, file);
    let a = alt.len() as int;
    let u = url.len() as int;
    assert(r.subrange(2, 2 + a) =~= alt);
    assert(r.subrange(4 + a, 4 + a + u) =~= url);
}

} // verus!
