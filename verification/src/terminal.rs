//! xterm input encoding for the embedded terminal, and the replies it sends
//! to the queries of programs running inside it.
use vstd::prelude::*;
use vstd::utf8::{encode_utf8, is_ascii_chars};

use crate::text::{append_bytes, chars_equal, chars_vec};
use unicode_segmentation::UnicodeSegmentation;

verus! {

pub open spec fn bytes_view(r: Option<Vec<u8>>) -> Option<Seq<u8>> {
    match r {
        Some(v) => Some(v@),
        None => None,
    }
}

/// Keys with a fixed escape sequence; only `backspace` and `delete` vary with Control.
pub open spec fn fixed_key_bytes(key: Seq<char>, ctrl: bool) -> Option<Seq<u8>> {
    if key == seq!['e', 'n', 't', 'e', 'r'] || key == seq!['r', 'e', 't', 'u', 'r', 'n'] {
        Some(seq![13u8])
    } else if key == seq!['b', 'a', 'c', 'k', 's', 'p', 'a', 'c', 'e'] {
        Some(if ctrl { seq![8u8] } else { seq![127u8] })
    } else if key == seq!['t', 'a', 'b'] {
        Some(seq![9u8])
    } else if key == seq!['b', 'a', 'c', 'k', 't', 'a', 'b'] || key == seq!['s', 'h', 'i', 'f', 't', '-', 't', 'a', 'b'] {
        Some(seq![27u8, 91u8, 90u8])
    } else if key == seq!['e', 's', 'c', 'a', 'p', 'e'] || key == seq!['e', 's', 'c'] {
        Some(seq![27u8])
    } else if key == seq!['d', 'e', 'l', 'e', 't', 'e'] {
        Some(if ctrl { seq![27u8, 91u8, 51u8, 59u8, 53u8, 126u8] } else { seq![27u8, 91u8, 51u8, 126u8] })
    } else if key == seq!['i', 'n', 's', 'e', 'r', 't'] {
        Some(seq![27u8, 91u8, 50u8, 126u8])
    } else if key == seq!['p', 'a', 'g', 'e', 'u', 'p'] {
        Some(seq![27u8, 91u8, 53u8, 126u8])
    } else if key == seq!['p', 'a', 'g', 'e', 'd', 'o', 'w', 'n'] {
        Some(seq![27u8, 91u8, 54u8, 126u8])
    } else if key == seq!['f', '1'] {
        Some(seq![27u8, 79u8, 80u8])
    } else if key == seq!['f', '2'] {
        Some(seq![27u8, 79u8, 81u8])
    } else if key == seq!['f', '3'] {
        Some(seq![27u8, 79u8, 82u8])
    } else if key == seq!['f', '4'] {
        Some(seq![27u8, 79u8, 83u8])
    } else if key == seq!['f', '5'] {
        Some(seq![27u8, 91u8, 49u8, 53u8, 126u8])
    } else if key == seq!['f', '6'] {
        Some(seq![27u8, 91u8, 49u8, 55u8, 126u8])
    } else if key == seq!['f', '7'] {
        Some(seq![27u8, 91u8, 49u8, 56u8, 126u8])
    } else if key == seq!['f', '8'] {
        Some(seq![27u8, 91u8, 49u8, 57u8, 126u8])
    } else if key == seq!['f', '9'] {
        Some(seq![27u8, 91u8, 50u8, 48u8, 126u8])
    } else if key == seq!['f', '1', '0'] {
        Some(seq![27u8, 91u8, 50u8, 49u8, 126u8])
    } else if key == seq!['f', '1', '1'] {
        Some(seq![27u8, 91u8, 50u8, 51u8, 126u8])
    } else if key == seq!['f', '1', '2'] {
        Some(seq![27u8, 91u8, 50u8, 52u8, 126u8])
    } else {
        None
    }
}

/// Final byte of the cursor-key sequences.
pub open spec fn cursor_suffix(key: Seq<char>) -> Option<u8> {
    if key == seq!['u', 'p'] {
        Some(65u8)
    } else if key == seq!['d', 'o', 'w', 'n'] {
        Some(66u8)
    } else if key == seq!['r', 'i', 'g', 'h', 't'] {
        Some(67u8)
    } else if key == seq!['l', 'e', 'f', 't'] {
        Some(68u8)
    } else if key == seq!['h', 'o', 'm', 'e'] {
        Some(72u8)
    } else if key == seq!['e', 'n', 'd'] {
        Some(70u8)
    } else {
        None
    }
}

/// The cursor sequence introducer: `CSI 1;5` with Control, `SS3` in
/// application cursor mode, otherwise `CSI`.
pub open spec fn cursor_introducer(ctrl: bool, application_cursor: bool) -> Seq<u8> {
    if ctrl {
        seq![27u8, 91u8, 49u8, 59u8, 53u8]
    } else if application_cursor {
        seq![27u8, 79u8]
    } else {
        seq![27u8, 91u8]
    }
}

/// The C0 control code that Control plus the ASCII character `c` produces.
pub open spec fn control_code(c: char) -> Option<u8> {
    let v = c as u32;
    if 97 <= v <= 122 {
        Some((v - 96) as u8)
    } else if 64 <= v <= 95 {
        Some((v - 64) as u8)
    } else if c == ' ' || c == '2' {
        Some(0u8)
    } else if c == '3' {
        Some(27u8)
    } else if c == '4' {
        Some(28u8)
    } else if c == '5' {
        Some(29u8)
    } else if c == '6' {
        Some(30u8)
    } else if c == '7' || c == '/' {
        Some(31u8)
    } else if c == '8' || c == '?' {
        Some(127u8)
    } else {
        None
    }
}

/// The extended grapheme clusters (Unicode UAX #29) of a text, in order.
pub uninterp spec fn extended_grapheme_clusters(text: Seq<char>) -> Seq<Seq<char>>;

pub open spec fn concat_all(parts: Seq<Seq<char>>) -> Seq<char>
    decreases parts.len(),
{
    if parts.len() == 0 {
        Seq::empty()
    } else {
        concat_all(parts.drop_last()) + parts.last()
    }
}

pub open spec fn string_views(v: Seq<String>) -> Seq<Seq<char>> {
    v.map_values(|g: String| g@)
}

/// `UnicodeSegmentation::graphemes(text, true)`, collected. The clusters are
/// what UAX #29 defines, named here rather than restated; what is stated is
/// that they are nonempty and, joined in order, give back the text.
#[verifier::external_body]
pub(crate) fn grapheme_clusters(text: &str) -> (r: Vec<String>)
    ensures
        string_views(r@) == extended_grapheme_clusters(text@),
        forall|i: int| 0 <= i < r@.len() ==> (#[trigger] r@[i])@.len() > 0,
        concat_all(string_views(r@)) == text@,
{
    text.graphemes(true).map(|g| g.to_string()).collect()
}

/// Bytes for a key that names text: a single grapheme cluster is sent as UTF-8,
/// or with Control as the control code of its ASCII character. Alt prefixes ESC.
pub open spec fn spec_text_key_bytes(text: Seq<char>, clusters: nat, ctrl: bool, alt: bool) -> Option<
    Seq<u8>,
> {
    let prefix = if alt {
        seq![27u8]
    } else {
        Seq::<u8>::empty()
    };
    if clusters != 1 || text.len() == 0 {
        None
    } else if ctrl {
        if !is_ascii_chars(text) {
            None
        } else {
            match control_code(text[0]) {
                Some(code) => Some(prefix.push(code)),
                None => None,
            }
        }
    } else {
        Some(prefix + encode_utf8(text))
    }
}

/// Encode GPUI key names as xterm input. Printable Unicode is kept as UTF-8;
/// named non-text keys are never accidentally sent as their names.
pub open spec fn spec_key_bytes(key: Seq<char>, ctrl: bool, alt: bool, application_cursor: bool) -> Option<
    Seq<u8>,
> {
    let prefix = if alt {
        seq![27u8]
    } else {
        Seq::<u8>::empty()
    };
    match fixed_key_bytes(key, ctrl) {
        Some(bytes) => Some(prefix + bytes),
        None => match cursor_suffix(key) {
            Some(suffix) => Some(prefix + cursor_introducer(ctrl, application_cursor).push(suffix)),
            None => {
                let text = if key == seq!['s', 'p', 'a', 'c', 'e'] {
                    seq![' ']
                } else {
                    key
                };
                spec_text_key_bytes(
                    text,
                    extended_grapheme_clusters(text).len(),
                    ctrl,
                    alt,
                )
            },
        },
    }
}

fn fixed_key_exec(cs: &[char], ctrl: bool) -> (r: Option<Vec<u8>>)
    ensures
        bytes_view(r) == fixed_key_bytes(cs@, ctrl),
{
    if chars_equal(cs, &['e', 'n', 't', 'e', 'r']) || chars_equal(cs, &['r', 'e', 't', 'u', 'r', 'n']) {
        return Some(vec![13]);
    }
    if chars_equal(cs, &['b', 'a', 'c', 'k', 's', 'p', 'a', 'c', 'e']) {
        return Some(if ctrl { vec![8] } else { vec![127] });
    }
    if chars_equal(cs, &['t', 'a', 'b']) {
        return Some(vec![9]);
    }
    if chars_equal(cs, &['b', 'a', 'c', 'k', 't', 'a', 'b']) || chars_equal(cs, &['s', 'h', 'i', 'f', 't', '-', 't', 'a', 'b']) {
        return Some(vec![27, 91, 90]);
    }
    if chars_equal(cs, &['e', 's', 'c', 'a', 'p', 'e']) || chars_equal(cs, &['e', 's', 'c']) {
        return Some(vec![27]);
    }
    if chars_equal(cs, &['d', 'e', 'l', 'e', 't', 'e']) {
        return Some(if ctrl { vec![27, 91, 51, 59, 53, 126] } else { vec![27, 91, 51, 126] });
    }
    if chars_equal(cs, &['i', 'n', 's', 'e', 'r', 't']) {
        return Some(vec![27, 91, 50, 126]);
    }
    if chars_equal(cs, &['p', 'a', 'g', 'e', 'u', 'p']) {
        return Some(vec![27, 91, 53, 126]);
    }
    if chars_equal(cs, &['p', 'a', 'g', 'e', 'd', 'o', 'w', 'n']) {
        return Some(vec![27, 91, 54, 126]);
    }
    if chars_equal(cs, &['f', '1']) {
        return Some(vec![27, 79, 80]);
    }
    if chars_equal(cs, &['f', '2']) {
        return Some(vec![27, 79, 81]);
    }
    if chars_equal(cs, &['f', '3']) {
        return Some(vec![27, 79, 82]);
    }
    if chars_equal(cs, &['f', '4']) {
        return Some(vec![27, 79, 83]);
    }
    if chars_equal(cs, &['f', '5']) {
        return Some(vec![27, 91, 49, 53, 126]);
    }
    if chars_equal(cs, &['f', '6']) {
        return Some(vec![27, 91, 49, 55, 126]);
    }
    if chars_equal(cs, &['f', '7']) {
        return Some(vec![27, 91, 49, 56, 126]);
    }
    if chars_equal(cs, &['f', '8']) {
        return Some(vec![27, 91, 49, 57, 126]);
    }
    if chars_equal(cs, &['f', '9']) {
        return Some(vec![27, 91, 50, 48, 126]);
    }
    if chars_equal(cs, &['f', '1', '0']) {
        return Some(vec![27, 91, 50, 49, 126]);
    }
    if chars_equal(cs, &['f', '1', '1']) {
        return Some(vec![27, 91, 50, 51, 126]);
    }
    if chars_equal(cs, &['f', '1', '2']) {
        return Some(vec![27, 91, 50, 52, 126]);
    }
    None
}


fn cursor_suffix_exec(cs: &[char]) -> (r: Option<u8>)
    ensures
        r == cursor_suffix(cs@),
{
    if chars_equal(cs, &['u', 'p']) {
        Some(65)
    } else if chars_equal(cs, &['d', 'o', 'w', 'n']) {
        Some(66)
    } else if chars_equal(cs, &['r', 'i', 'g', 'h', 't']) {
        Some(67)
    } else if chars_equal(cs, &['l', 'e', 'f', 't']) {
        Some(68)
    } else if chars_equal(cs, &['h', 'o', 'm', 'e']) {
        Some(72)
    } else if chars_equal(cs, &['e', 'n', 'd']) {
        Some(70)
    } else {
        None
    }
}

fn control_code_exec(c: char) -> (r: Option<u8>)
    ensures
        r == control_code(c),
{
    let v = c as u32;
    if 97 <= v && v <= 122 {
        Some((v - 96) as u8)
    } else if 64 <= v && v <= 95 {
        Some((v - 64) as u8)
    } else if c == ' ' || c == '2' {
        Some(0)
    } else if c == '3' {
        Some(27)
    } else if c == '4' {
        Some(28)
    } else if c == '5' {
        Some(29)
    } else if c == '6' {
        Some(30)
    } else if c == '7' || c == '/' {
        Some(31)
    } else if c == '8' || c == '?' {
        Some(127)
    } else {
        None
    }
}

/// The encoding of a text key, given how many grapheme clusters the text has.
pub fn text_key_bytes(text: &str, clusters: usize, ctrl: bool, alt: bool) -> (r: Option<Vec<u8>>)
    ensures
        bytes_view(r) == spec_text_key_bytes(text@, clusters as nat, ctrl, alt),
{
    let mut result: Vec<u8> = Vec::new();
    if alt {
        result.push(27);
    }
    let cs = chars_vec(text);
    if clusters != 1 || cs.len() == 0 {
        return None;
    }
    if ctrl {
        if !text.is_ascii() {
            return None;
        }
        match control_code_exec(cs[0]) {
            Some(code) => {
                result.push(code);
                Some(result)
            },
            None => None,
        }
    } else {
        append_bytes(&mut result, text.as_bytes());
        Some(result)
    }
}

pub fn key_bytes(key: &str, ctrl: bool, alt: bool, application_cursor: bool) -> (r: Option<Vec<u8>>)
    ensures
        bytes_view(r) == spec_key_bytes(key@, ctrl, alt, application_cursor),
        key@.len() == 0 ==> r is None,
        key@.len() == 1 ==> bytes_view(r) == spec_text_key_bytes(key@, 1, ctrl, alt),
        key@ == seq!['s', 'p', 'a', 'c', 'e'] ==> bytes_view(r) == spec_text_key_bytes(seq![' '], 1, ctrl, alt),
{
    let cs = chars_vec(key);
    let mut result: Vec<u8> = Vec::new();
    if alt {
        result.push(27);
    }
    if let Some(bytes) = fixed_key_exec(cs.as_slice(), ctrl) {
        append_bytes(&mut result, bytes.as_slice());
        assert(bytes_view(Some(result)) == spec_key_bytes(key@, ctrl, alt, application_cursor));
        return Some(result);
    }
    if let Some(suffix) = cursor_suffix_exec(cs.as_slice()) {
        if ctrl {
            append_bytes(&mut result, &[27, 91, 49, 59, 53]);
        } else if application_cursor {
            append_bytes(&mut result, &[27, 79]);
        } else {
            append_bytes(&mut result, &[27, 91]);
        }
        result.push(suffix);
        assert(bytes_view(Some(result)) == spec_key_bytes(key@, ctrl, alt, application_cursor));
        return Some(result);
    }
    let space = chars_equal(cs.as_slice(), &['s', 'p', 'a', 'c', 'e']);
    let text: &str = if space {
        " "
    } else {
        key
    };
    proof {
        reveal_strlit(" ");
    }
    assert(text@ == (if key@ == seq!['s', 'p', 'a', 'c', 'e'] {
        seq![' ']
    } else {
        key@
    }));
    let clusters = grapheme_clusters(text);
    assert(clusters@.len() == string_views(clusters@).len());
    proof {
        let parts = string_views(clusters@);
        assert forall|i: int| 0 <= i < parts.len() implies (#[trigger] parts[i]).len() > 0 by {
            assert(parts[i] == clusters@[i]@);
        }
        lemma_nonempty_parts(parts);
    }
    text_key_bytes(text, clusters.len(), ctrl, alt)
}

/// Why a terminal size is refused.
#[derive(Debug, Clone, Copy, PartialEq, Eq)]
pub enum TerminalSizeError {
    /// A dimension is zero.
    Empty,
    /// More than 1,048,576 cells.
    TooLarge,
}

/// PTY dimensions are nonzero and at most 1,048,576 cells.
pub fn pty_size(rows: u16, cols: u16) -> (r: Result<(u16, u16), TerminalSizeError>)
    ensures
        rows == 0 || cols == 0 ==> r == Err::<(u16, u16), _>(TerminalSizeError::Empty),
        rows > 0 && cols > 0 && rows * cols > 1_048_576 ==> r == Err::<(u16, u16), _>(
            TerminalSizeError::TooLarge,
        ),
        rows > 0 && cols > 0 && rows * cols <= 1_048_576 ==> r == Ok::<_, TerminalSizeError>(
            (rows, cols),
        ),
{
    if rows == 0 || cols == 0 {
        return Err(TerminalSizeError::Empty);
    }
    assert((rows as u32) * (cols as u32) <= 0xfffe0001u32) by (nonlinear_arith)
        requires
            rows <= 0xffff,
            cols <= 0xffff,
    ;
    let cells = (rows as u32) * (cols as u32);
    if cells > 1_048_576 {
        return Err(TerminalSizeError::TooLarge);
    }
    Ok((rows, cols))
}

/// ASCII decimal digits of `n`.
pub open spec fn decimal_bytes(n: nat) -> Seq<u8>
    decreases n,
{
    if n < 10 {
        seq![(48 + n) as u8]
    } else {
        decimal_bytes(n / 10).push((48 + n % 10) as u8)
    }
}

fn push_decimal(out: &mut Vec<u8>, n: u32)
    ensures
        final(out)@ == old(out)@ + decimal_bytes(n as nat),
    decreases n,
{
    if n < 10 {
        out.push((48 + n) as u8);
    } else {
        push_decimal(out, n / 10);
        out.push((48 + n % 10) as u8);
    }
}

/// The single numeric parameter of a control sequence (0 when absent), or
/// `None` when the sequence carries more than one.
pub open spec fn single_parameter(params: Seq<Seq<u16>>) -> Option<u16> {
    if params.len() > 1 || exists|i: int| 0 <= i < params.len() && #[trigger] params[i].len() > 1 {
        None
    } else if params.len() == 0 || params[0].len() == 0 {
        Some(0u16)
    } else {
        Some(params[0][0])
    }
}

pub open spec fn param_views(params: Seq<&[u16]>) -> Seq<Seq<u16>> {
    params.map_values(|p: &[u16]| p@)
}

/// The reply to a control sequence the screen emulator leaves unhandled:
/// device status (`CSI 5 n`), cursor position (`CSI 6 n`, `CSI ? 6 n`),
/// primary and secondary device attributes (`CSI c`, `CSI > c`) and the text
/// area size (`CSI 18 t`). Anything else gets no reply. `cursor` and `size`
/// are zero-based row/column and rows/columns of the screen.
pub open spec fn spec_csi_reply(
    intermediate: Option<u8>,
    second: Option<u8>,
    params: Seq<Seq<u16>>,
    command: char,
    cursor: (u16, u16),
    size: (u16, u16),
) -> Seq<u8> {
    if second is Some {
        Seq::empty()
    } else {
        match single_parameter(params) {
            None => Seq::empty(),
            Some(p) => if intermediate is None && p == 5 && command == 'n' {
                seq![27u8, 91u8, 48u8, 110u8]
            } else if (intermediate is None || intermediate == Some(63u8)) && p == 6 && command
                == 'n' {
                let private = if intermediate is Some {
                    seq![63u8]
                } else {
                    Seq::empty()
                };
                seq![27u8, 91u8] + private + decimal_bytes((cursor.0 + 1) as nat) + seq![59u8]
                    + decimal_bytes((cursor.1 + 1) as nat) + seq![82u8]
            } else if intermediate is None && p == 0 && command == 'c' {
                seq![27u8, 91u8, 63u8, 49u8, 59u8, 50u8, 99u8]
            } else if intermediate == Some(62u8) && p == 0 && command == 'c' {
                seq![27u8, 91u8, 62u8, 48u8, 59u8, 49u8, 59u8, 48u8, 99u8]
            } else if intermediate is None && p == 18 && command == 't' {
                seq![27u8, 91u8, 56u8, 59u8] + decimal_bytes(size.0 as nat) + seq![59u8]
                    + decimal_bytes(size.1 as nat) + seq![116u8]
            } else {
                Seq::empty()
            },
        }
    }
}

pub fn csi_reply(
    intermediate: Option<u8>,
    second: Option<u8>,
    params: &[&[u16]],
    command: char,
    cursor: (u16, u16),
    size: (u16, u16),
) -> (r: Vec<u8>)
    ensures
        r@ == spec_csi_reply(intermediate, second, param_views(params@), command, cursor, size),
{
    let ghost ps = param_views(params@);
    let mut out: Vec<u8> = Vec::new();
    if second.is_some() || params.len() > 1 {
        return out;
    }
    let mut i: usize = 0;
    while i < params.len()
        invariant
            i <= params.len(),
            ps == param_views(params@),
            second is None,
            params.len() <= 1,
            out@ == Seq::<u8>::empty(),
            forall|k: int| 0 <= k < i ==> ps[k].len() <= 1,
        decreases params.len() - i,
    {
        if params[i].len() > 1 {
            assert(ps[i as int].len() > 1);
            return out;
        }
        i += 1;
    }
    let p: u16 = if params.len() == 0 || params[0].len() == 0 {
        0
    } else {
        params[0][0]
    };
    assert(single_parameter(ps) == Some(p));
    if intermediate.is_none() && p == 5 && command == 'n' {
        append_bytes(&mut out, &[27, 91, 48, 110]);
    } else if (intermediate.is_none() || intermediate == Some(63u8)) && p == 6 && command == 'n' {
        append_bytes(&mut out, &[27, 91]);
        if intermediate.is_some() {
            out.push(63);
        }
        push_decimal(&mut out, cursor.0 as u32 + 1);
        out.push(59);
        push_decimal(&mut out, cursor.1 as u32 + 1);
        out.push(82);
    } else if intermediate.is_none() && p == 0 && command == 'c' {
        append_bytes(&mut out, &[27, 91, 63, 49, 59, 50, 99]);
    } else if intermediate == Some(62u8) && p == 0 && command == 'c' {
        append_bytes(&mut out, &[27, 91, 62, 48, 59, 49, 59, 48, 99]);
    } else if intermediate.is_none() && p == 18 && command == 't' {
        append_bytes(&mut out, &[27, 91, 56, 59]);
        push_decimal(&mut out, size.0 as u32);
        out.push(59);
        push_decimal(&mut out, size.1 as u32);
        out.push(116);
    }
    out
}

/// Longest operating-system-command payload passed to the screen emulator.
pub const OSC_LIMIT: usize = 16384;

/// Bounds OSC control strings in terminal output: an oversized one is
/// cancelled (CAN) and its payload discarded through its terminator, without
/// treating the rest of the payload as visible text.
#[derive(Debug, Clone, Copy, PartialEq, Eq)]
pub struct OscFilter {
    /// Payload length of the OSC string in progress.
    pub osc_len: Option<usize>,
    /// The previous byte was ESC.
    pub escaped: bool,
    /// Discarding an oversized payload up to its terminator.
    pub dropping_osc: bool,
}

pub open spec fn osc_terminator(b: u8) -> bool {
    b == 7 || b == 0x18 || b == 0x1a || b == 0x1b
}

impl OscFilter {
    pub open spec fn wf(self) -> bool {
        &&& self.osc_len matches Some(l) ==> l <= OSC_LIMIT
        &&& self.dropping_osc ==> self.osc_len is None
    }

    pub open spec fn idle(self) -> bool {
        self.osc_len is None && !self.dropping_osc
    }

    /// One byte of the scan: the next state, the start of the pending
    /// unforwarded run, and the chunks forwarded so far.
    pub open spec fn step(self, bytes: Seq<u8>, i: int, start: int, out: Seq<Seq<u8>>) -> (
        OscFilter,
        int,
        Seq<Seq<u8>>,
    ) {
        let b = bytes[i];
        if self.dropping_osc {
            if osc_terminator(b) {
                let escaped = b == 0x1b;
                (
                    OscFilter { osc_len: None, escaped, dropping_osc: false },
                    if escaped {
                        i
                    } else {
                        i + 1
                    },
                    out,
                )
            } else {
                (self, i + 1, out)
            }
        } else {
            let escaped = b == 0x1b;
            match self.osc_len {
                Some(len) => if osc_terminator(b) {
                    (OscFilter { osc_len: None, escaped, dropping_osc: false }, start, out)
                } else if len + 1 > OSC_LIMIT {
                    (
                        OscFilter { osc_len: None, escaped, dropping_osc: true },
                        i + 1,
                        out.push(bytes.subrange(start, i)).push(seq![0x18u8]),
                    )
                } else {
                    (
                        OscFilter { osc_len: Some((len + 1) as usize), escaped, dropping_osc: false },
                        start,
                        out,
                    )
                },
                None => if self.escaped && b == 0x5d {
                    (OscFilter { osc_len: Some(0), escaped, dropping_osc: false }, start, out)
                } else {
                    (OscFilter { osc_len: None, escaped, dropping_osc: false }, start, out)
                },
            }
        }
    }

    pub open spec fn scan(self, bytes: Seq<u8>, i: int, start: int, out: Seq<Seq<u8>>) -> (
        OscFilter,
        int,
        Seq<Seq<u8>>,
    )
        decreases bytes.len() - i,
    {
        if i < 0 || i >= bytes.len() {
            (self, start, out)
        } else {
            let (next, start2, out2) = self.step(bytes, i, start, out);
            next.scan(bytes, i + 1, start2, out2)
        }
    }

    /// The state after `bytes`, and the chunks to hand to the screen emulator, in order.
    pub open spec fn spec_filter(self, bytes: Seq<u8>) -> (OscFilter, Seq<Seq<u8>>) {
        let (next, start, out) = self.scan(bytes, 0, 0, Seq::empty());
        (next, out.push(bytes.subrange(start, bytes.len() as int)))
    }

    pub fn new() -> (r: OscFilter)
        ensures
            r.idle(),
            !r.escaped,
            r.wf(),
    {
        OscFilter { osc_len: None, escaped: false, dropping_osc: false }
    }

    pub fn filter(&mut self, bytes: &[u8]) -> (chunks: Vec<Vec<u8>>)
        requires
            old(self).wf(),
        ensures
            final(self).wf(),
            (*final(self), chunk_views(chunks@)) == old(self).spec_filter(bytes@),
    {
        let ghost s = bytes@;
        let ghost init = *self;
        let mut out: Vec<Vec<u8>> = Vec::new();
        let mut start: usize = 0;
        let mut i: usize = 0;
        assert(chunk_views(out@) =~= Seq::<Seq<u8>>::empty());
        while i < bytes.len()
            invariant
                s == bytes@,
                i <= bytes.len(),
                start <= i,
                self.wf(),
                init.scan(s, 0, 0, Seq::empty()) == self.scan(s, i as int, start as int, chunk_views(out@)),
            decreases bytes.len() - i,
        {
            let b = bytes[i];
            let terminates = b == 7 || b == 0x18 || b == 0x1a || b == 0x1b;
            let ghost expected = self.step(s, i as int, start as int, chunk_views(out@));
            if self.dropping_osc {
                start = i + 1;
                if terminates {
                    self.dropping_osc = false;
                    self.escaped = b == 0x1b;
                    if self.escaped {
                        start = i;
                    }
                }
            } else {
                match self.osc_len {
                    Some(len) => {
                        if terminates {
                            self.osc_len = None;
                        } else if len + 1 > OSC_LIMIT {
                            let ghost v0 = chunk_views(out@);
                            let chunk = slice_range(bytes, start, i);
                            out.push(chunk);
                            assert(chunk_views(out@) =~= v0.push(s.subrange(start as int, i as int)));
                            let mut cancel: Vec<u8> = Vec::new();
                            cancel.push(0x18);
                            assert(cancel@ =~= seq![0x18u8]);
                            let ghost v1 = chunk_views(out@);
                            out.push(cancel);
                            assert(chunk_views(out@) =~= v1.push(seq![0x18u8]));
                            self.osc_len = None;
                            self.dropping_osc = true;
                            start = i + 1;
                        } else {
                            self.osc_len = Some(len + 1);
                        }
                    },
                    None => {
                        if self.escaped && b == 0x5d {
                            self.osc_len = Some(0);
                        }
                    },
                }
                self.escaped = b == 0x1b;
            }
            proof {
                assert(chunk_views(out@) =~= expected.2);
                assert((*self, start as int) == (expected.0, expected.1));
            }
            i += 1;
        }
        let ghost v0 = chunk_views(out@);
        let last = slice_range(bytes, start, bytes.len());
        out.push(last);
        assert(chunk_views(out@) =~= v0.push(s.subrange(start as int, s.len() as int)));
        out
    }
}

pub open spec fn chunk_views(v: Seq<Vec<u8>>) -> Seq<Seq<u8>> {
    v.map_values(|c: Vec<u8>| c@)
}

fn slice_range(bytes: &[u8], a: usize, b: usize) -> (r: Vec<u8>)
    requires
        a <= b <= bytes@.len(),
    ensures
        r@ == bytes@.subrange(a as int, b as int),
{
    let mut r: Vec<u8> = Vec::new();
    let mut i = a;
    while i < b
        invariant
            a <= i <= b <= bytes@.len(),
            r@ == bytes@.subrange(a as int, i as int),
        decreases b - i,
    {
        r.push(bytes[i]);
        assert(bytes@.subrange(a as int, i + 1) =~= bytes@.subrange(a as int, i as int).push(
            bytes@[i as int],
        ));
        i += 1;
    }
    r
}

/// Ordinary output passes through untouched: an idle filter forwards a chunk
/// with no `]` byte as one unchanged piece and stays idle.
pub proof fn law_plain_output_passes_through(f: OscFilter, bytes: Seq<u8>)
    requires
        f.idle(),
        forall|k: int| 0 <= k < bytes.len() ==> bytes[k] != 0x5d,
    ensures
        f.spec_filter(bytes).1 == seq![bytes],
        f.spec_filter(bytes).0.idle(),
{
    lemma_plain_scan(f, bytes, 0);
    assert(bytes.subrange(0, bytes.len() as int) =~= bytes);
}

proof fn lemma_plain_scan(f: OscFilter, bytes: Seq<u8>, i: int)
    requires
        f.idle(),
        0 <= i <= bytes.len(),
        forall|k: int| 0 <= k < bytes.len() ==> bytes[k] != 0x5d,
    ensures
        f.scan(bytes, i, 0, Seq::empty()).0.idle(),
        f.scan(bytes, i, 0, Seq::empty()).1 == 0,
        f.scan(bytes, i, 0, Seq::empty()).2 == Seq::<Seq<u8>>::empty(),
    decreases bytes.len() - i,
{
    if i < bytes.len() {
        let (next, s2, o2) = f.step(bytes, i, 0, Seq::empty());
        assert(bytes[i] != 0x5d);
        lemma_plain_scan(next, bytes, i + 1);
    }
}

/// The reply to an unhandled escape: `ESC Z` (DECID) is answered like primary
/// device attributes; nothing else is answered.
pub fn escape_reply(first: Option<u8>, second: Option<u8>, byte: u8) -> (r: Vec<u8>)
    ensures
        r@ == if first is None && second is None && byte == 90 {
            seq![27u8, 91u8, 63u8, 49u8, 59u8, 50u8, 99u8]
        } else {
            Seq::<u8>::empty()
        },
{
    let mut out: Vec<u8> = Vec::new();
    if first.is_none() && second.is_none() && byte == 90 {
        append_bytes(&mut out, &[27, 91, 63, 49, 59, 50, 99]);
    }
    out
}

/// The most input (keys, pastes and replies) held for the shell.
pub const INPUT_LIMIT: usize = 1048576;

/// Room kept for the replies that one chunk of output can cause: output is
/// parsed only while the queue holds at most `INPUT_LIMIT - REPLY_RESERVE`.
pub const REPLY_RESERVE: usize = 65536;

/// Why input is refused.
#[derive(Clone, Copy, Debug, PartialEq, Eq, Structural)]
pub enum InputError {
    /// The terminal input queue is full; wait for the shell to consume input.
    QueueFull,
}

/// Input waiting for the shell: `pending[offset..]` is not yet written.
pub struct InputQueue {
    pub pending: Vec<u8>,
    pub offset: usize,
}

impl InputQueue {
    pub open spec fn wf(&self) -> bool {
        self.offset <= self.pending@.len()
    }

    /// The bytes not yet written, in order.
    pub open spec fn unwritten(&self) -> Seq<u8> {
        self.pending@.subrange(self.offset as int, self.pending@.len() as int)
    }

    pub fn new() -> (q: InputQueue)
        ensures
            q.wf(),
            q.unwritten() == Seq::<u8>::empty(),
            q.pending@.len() == 0,
    {
        InputQueue { pending: Vec::new(), offset: 0 }
    }

    fn append(&mut self, bytes: &[u8])
        requires
            old(self).wf(),
        ensures
            final(self).wf(),
            final(self).offset == old(self).offset,
            final(self).pending@ == old(self).pending@ + bytes@,
    {
        let mut i: usize = 0;
        while i < bytes.len()
            invariant
                i <= bytes@.len(),
                self.offset == old(self).offset,
                self.pending@ == old(self).pending@ + bytes@.take(i as int),
                self.offset <= self.pending@.len(),
            decreases bytes.len() - i,
        {
            self.pending.push(bytes[i]);
            assert(self.pending@ =~= old(self).pending@ + bytes@.take(i + 1));
            i += 1;
        }
        assert(bytes@.take(bytes@.len() as int) =~= bytes@);
    }

    /// Enqueue input atomically: all of it, after everything already
    /// queued, or (when it would overfill the queue) none of it.
    pub fn send(&mut self, bytes: &[u8]) -> (r: Result<(), InputError>)
        requires
            old(self).wf(),
        ensures
            final(self).wf(),
            r is Ok <==> bytes@.len() <= INPUT_LIMIT - old(self).unwritten().len(),
            r is Ok ==> final(self).unwritten() == old(self).unwritten() + bytes@ && final(self).offset == 0,
            r is Err ==> final(self).pending@ == old(self).pending@ && final(self).offset == old(self).offset
                && r == Err::<(), InputError>(InputError::QueueFull),
    {
        let waiting = self.pending.len() - self.offset;
        if waiting > INPUT_LIMIT || bytes.len() > INPUT_LIMIT - waiting {
            return Err(InputError::QueueFull);
        }
        if self.offset != 0 {
            let mut rest: Vec<u8> = Vec::new();
            let mut i: usize = self.offset;
            while i < self.pending.len()
                invariant
                    old(self).offset <= i <= self.pending@.len(),
                    self.pending@ == old(self).pending@,
                    self.offset == old(self).offset,
                    rest@ == self.pending@.subrange(self.offset as int, i as int),
                decreases self.pending.len() - i,
            {
                rest.push(self.pending[i]);
                assert(rest@ =~= self.pending@.subrange(self.offset as int, i + 1));
                i += 1;
            }
            self.pending = rest;
            self.offset = 0;
        }
        assert(self.unwritten() =~= old(self).unwritten());
        self.append(bytes);
        assert(self.unwritten() =~= old(self).unwritten() + bytes@);
        Ok(())
    }

    /// Queue a reply to a terminal query, after everything already queued.
    pub fn reply(&mut self, bytes: &[u8])
        requires
            old(self).wf(),
        ensures
            final(self).wf(),
            final(self).offset == old(self).offset,
            final(self).pending@ == old(self).pending@ + bytes@,
            final(self).unwritten() == old(self).unwritten() + bytes@,
    {
        self.append(bytes);
        assert(self.unwritten() =~= old(self).unwritten() + bytes@);
    }

    /// The next bytes to write: the first `max` unwritten ones at most.
    pub fn next_chunk(&self, max: usize) -> (r: Vec<u8>)
        requires
            self.wf(),
        ensures
            r@ == self.unwritten().take(if max < self.unwritten().len() { max as int } else { self.unwritten().len() as int }),
    {
        let waiting = self.pending.len() - self.offset;
        let end = if max < waiting {
            self.offset + max
        } else {
            self.pending.len()
        };
        let mut r: Vec<u8> = Vec::new();
        let mut i: usize = self.offset;
        while i < end
            invariant
                self.offset <= i <= end <= self.pending@.len(),
                r@ == self.pending@.subrange(self.offset as int, i as int),
            decreases end - i,
        {
            r.push(self.pending[i]);
            assert(r@ =~= self.pending@.subrange(self.offset as int, i + 1));
            i += 1;
        }
        assert(r@ =~= self.unwritten().take((end - self.offset) as int));
        r
    }

    /// Record that the shell took `count` more bytes; once everything is
    /// written the queue starts over empty.
    pub fn written(&mut self, count: usize)
        requires
            old(self).wf(),
            count <= old(self).unwritten().len(),
        ensures
            final(self).wf(),
            final(self).unwritten() == old(self).unwritten().skip(count as int),
            final(self).unwritten().len() == 0 ==> final(self).pending@.len() == 0,
    {
        let len = self.pending.len();
        assert(old(self).unwritten().len() == len - old(self).offset);
        self.offset = self.offset + count;
        if self.offset == len {
            self.pending = Vec::new();
            self.offset = 0;
            assert(self.unwritten() =~= old(self).unwritten().skip(count as int));
        } else {
            assert(self.unwritten() =~= old(self).unwritten().skip(count as int));
        }
    }

    /// Drop everything queued (the writer is gone).
    pub fn clear(&mut self)
        ensures
            final(self).wf(),
            final(self).pending@.len() == 0,
            final(self).unwritten() == Seq::<u8>::empty(),
    {
        self.pending = Vec::new();
        self.offset = 0;
        assert(self.unwritten() =~= Seq::<u8>::empty());
    }

    /// Whether output may be parsed now: every reply one chunk can cause
    /// still fits in the queue.
    pub fn accepts_output(&self) -> (r: bool)
        ensures
            r == (self.pending@.len() <= INPUT_LIMIT - REPLY_RESERVE),
    {
        self.pending.len() <= INPUT_LIMIT - REPLY_RESERVE
    }
}

/// Input reaches the shell in the order it was queued: after sending `a`
/// and then `b`, and writing `k` bytes, what is left is `a` then `b` without
/// its first `k` bytes.
pub proof fn law_input_is_first_in_first_out(a: Seq<u8>, b: Seq<u8>, k: int)
    requires
        0 <= k <= a.len() + b.len(),
    ensures
        ((Seq::<u8>::empty() + a) + b).skip(k) == (a + b).skip(k),
{
    assert((Seq::<u8>::empty() + a) + b =~= a + b);
}

/// The bytes sent to the shell for pasted text: its UTF-8, wrapped in the
/// bracketed-paste markers `ESC [200~` and `ESC [201~` when the program in
/// the terminal asked for them.
pub open spec fn spec_paste_bytes(text: Seq<char>, bracketed: bool) -> Seq<u8> {
    if bracketed {
        seq![27u8, 91u8, 50u8, 48u8, 48u8, 126u8] + encode_utf8(text) + seq![27u8, 91u8, 50u8, 48u8, 49u8, 126u8]
    } else {
        encode_utf8(text)
    }
}

pub fn paste_bytes(text: &str, bracketed: bool) -> (r: Vec<u8>)
    ensures
        r@ == spec_paste_bytes(text@, bracketed),
{
    let mut r: Vec<u8> = Vec::new();
    if bracketed {
        append_bytes(&mut r, &[27u8, 91u8, 50u8, 48u8, 48u8, 126u8]);
    }
    append_bytes(&mut r, text.as_bytes());
    if bracketed {
        append_bytes(&mut r, &[27u8, 91u8, 50u8, 48u8, 49u8, 126u8]);
    }
    assert(r@ =~= spec_paste_bytes(text@, bracketed));
    r
}

/// Control with a one-character key (`key_bytes` sends such a key, and
/// `space`, by this rule) sends the C0 control code of an ASCII character
/// (letters `a`-`z` and `@`-`_` map to 1-31 and 0-31, and space, `2`-`8`,
/// `/` and `?` to their xterm codes) and nothing for any other character.
pub proof fn law_control_keys_send_control_codes(c: char)
    ensures
        spec_text_key_bytes(seq![c], 1, true, false) == if (c as u32) < 128 {
            match control_code(c) {
                Some(code) => Some(seq![code]),
                None => None,
            }
        } else {
            None::<Seq<u8>>
        },
{
    assert(seq![c].len() == 1);
    if (c as u32) < 128 {
        assert(is_ascii_chars(seq![c]));
        if let Some(code) = control_code(c) {
            assert(Seq::<u8>::empty().push(code) =~= seq![code]);
        }
    } else {
        assert(!is_ascii_chars(seq![c]));
    }
}

/// Nonempty parts joined into a text number at most its length, and at least
/// one when the text is nonempty.
proof fn lemma_nonempty_parts(parts: Seq<Seq<char>>)
    requires
        forall|i: int| 0 <= i < parts.len() ==> (#[trigger] parts[i]).len() > 0,
    ensures
        parts.len() <= concat_all(parts).len(),
        parts.len() == 0 <==> concat_all(parts).len() == 0,
    decreases parts.len(),
{
    if parts.len() > 0 {
        assert forall|i: int| 0 <= i < parts.drop_last().len() implies (#[trigger] parts.drop_last()[i]).len()
            > 0 by {
            assert(parts.drop_last()[i] == parts[i]);
        }
        lemma_nonempty_parts(parts.drop_last());
        assert(parts.last().len() > 0);
    }
}


/// Each cursor key ends in its own xterm final byte (Up `A`, Down `B`,
/// Right `C`, Left `D`, Home `H`, End `F`) after `ESC` for Alt and the
/// introducer (`CSI 1;5` with Control, `SS3` in application cursor mode,
/// `CSI` otherwise), so no two cursor keys send the same bytes.
pub proof fn law_cursor_keys_send_their_own_final_byte(ctrl: bool, alt: bool, application_cursor: bool)
    ensures
        ({
            let prefix = if alt { seq![27u8] } else { Seq::<u8>::empty() };
            let intro = if ctrl {
                seq![27u8, 91u8, 49u8, 59u8, 53u8]
            } else if application_cursor {
                seq![27u8, 79u8]
            } else {
                seq![27u8, 91u8]
            };
            &&& spec_key_bytes(seq!['u', 'p'], ctrl, alt, application_cursor) == Some(prefix + intro.push(65u8))
            &&& spec_key_bytes(seq!['d', 'o', 'w', 'n'], ctrl, alt, application_cursor) == Some(
                prefix + intro.push(66u8),
            )
            &&& spec_key_bytes(seq!['r', 'i', 'g', 'h', 't'], ctrl, alt, application_cursor) == Some(
                prefix + intro.push(67u8),
            )
            &&& spec_key_bytes(seq!['l', 'e', 'f', 't'], ctrl, alt, application_cursor) == Some(
                prefix + intro.push(68u8),
            )
            &&& spec_key_bytes(seq!['h', 'o', 'm', 'e'], ctrl, alt, application_cursor) == Some(
                prefix + intro.push(72u8),
            )
            &&& spec_key_bytes(seq!['e', 'n', 'd'], ctrl, alt, application_cursor) == Some(
                prefix + intro.push(70u8),
            )
        }),
{
    assert(seq!['d', 'o', 'w', 'n'][0] != seq!['h', 'o', 'm', 'e'][0]);
    assert(seq!['d', 'o', 'w', 'n'][0] != seq!['l', 'e', 'f', 't'][0]);
    assert(seq!['h', 'o', 'm', 'e'][0] != seq!['l', 'e', 'f', 't'][0]);
    assert(seq!['u', 'p'][0] != seq!['f', '1'][0] && seq!['u', 'p'][0] != seq!['f', '2'][0]);
    assert(seq!['e', 'n', 'd'][1] != seq!['e', 's', 'c'][1] && seq!['e', 'n', 'd'][0] != seq!['t', 'a', 'b'][0]);
    assert(seq!['e', 'n', 'd'][0] != seq!['f', '1', '0'][0]);
    assert(seq!['e', 'n', 'd'][0] != seq!['f', '1', '1'][0]);
    assert(seq!['e', 'n', 'd'][0] != seq!['f', '1', '2'][0]);
}

} // verus!
