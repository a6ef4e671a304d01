//! Theme presets, colorscheme colors and color parsing.
use vstd::prelude::*;
use vstd::string::StringExecFns;

use crate::text::{chars_equal, chars_vec, is_control};

verus! {

/// A built-in theme.
#[derive(Clone, Copy, Debug, PartialEq, Eq, Structural)]
pub enum ThemePreset {
    Rockdown,
    Paper,
}

impl Default for ThemePreset {
    fn default() -> (r: Self)
        ensures
            r == ThemePreset::Rockdown,
    {
        ThemePreset::Rockdown
    }
}

/// The five interface colors of a theme: background, panel, foreground, muted, accent.
pub struct PresetColors {
    pub background: &'static str,
    pub panel: &'static str,
    pub foreground: &'static str,
    pub muted: &'static str,
    pub accent: &'static str,
}

impl ThemePreset {
    /// Every built-in theme, in display order.
    pub fn all() -> (r: Vec<ThemePreset>)
        ensures
            r@ == seq![ThemePreset::Rockdown, ThemePreset::Paper],
    {
        let mut r = Vec::new();
        r.push(ThemePreset::Rockdown);
        r.push(ThemePreset::Paper);
        assert(r@ =~= seq![ThemePreset::Rockdown, ThemePreset::Paper]);
        r
    }

    pub open spec fn spec_name(self) -> Seq<char> {
        match self {
            ThemePreset::Rockdown => seq!['R', 'o', 'c', 'k', 'd', 'o', 'w', 'n'],
            ThemePreset::Paper => seq!['P', 'a', 'p', 'e', 'r'],
        }
    }

    pub open spec fn spec_id(self) -> Seq<char> {
        match self {
            ThemePreset::Rockdown => seq!['r', 'o', 'c', 'k', 'd', 'o', 'w', 'n'],
            ThemePreset::Paper => seq!['p', 'a', 'p', 'e', 'r'],
        }
    }

    /// Display name.
    pub fn name(self) -> (r: &'static str)
        ensures
            r@ == self.spec_name(),
    {
        proof {
            reveal_strlit("Rockdown");
            reveal_strlit("Paper");
        }
        match self {
            ThemePreset::Rockdown => "Rockdown",
            ThemePreset::Paper => "Paper",
        }
    }

    /// Identifier used in configuration files.
    pub fn id(self) -> (r: &'static str)
        ensures
            r@ == self.spec_id(),
    {
        proof {
            reveal_strlit("rockdown");
            reveal_strlit("paper");
        }
        match self {
            ThemePreset::Rockdown => "rockdown",
            ThemePreset::Paper => "paper",
        }
    }

    pub open spec fn spec_from_id(id: Seq<char>) -> Option<ThemePreset> {
        if id == ThemePreset::Rockdown.spec_id() {
            Some(ThemePreset::Rockdown)
        } else if id == ThemePreset::Paper.spec_id() {
            Some(ThemePreset::Paper)
        } else {
            None
        }
    }

    /// The built-in theme with this identifier.
    pub fn from_id(id: &str) -> (r: Option<ThemePreset>)
        ensures
            r == Self::spec_from_id(id@),
    {
        let cs = chars_vec(id);
        if chars_equal(cs.as_slice(), &['r', 'o', 'c', 'k', 'd', 'o', 'w', 'n']) {
            Some(ThemePreset::Rockdown)
        } else if chars_equal(cs.as_slice(), &['p', 'a', 'p', 'e', 'r']) {
            Some(ThemePreset::Paper)
        } else {
            None
        }
    }

    pub open spec fn spec_colors(self) -> Seq<Seq<char>> {
        match self {
            ThemePreset::Rockdown => seq![
                "#171b22"@,
                "#1e242e"@,
                "#dce3ec"@,
                "#8995a7"@,
                "#9cc7b5"@,
            ],
            ThemePreset::Paper => seq![
                "#faf9f6"@,
                "#eeede9"@,
                "#292929"@,
                "#6b6b67"@,
                "#356d61"@,
            ],
        }
    }

    /// The preset's theme, with no syntax, terminal or Markdown overrides.
    pub fn theme(self) -> (t: Theme)
        ensures
            t.preset@ == self.spec_id(),
            t.name@ == self.spec_name(),
            t.colors() == self.spec_colors(),
            t.base == self,
            t.syntax@ == Seq::new(10, |i: int| None::<u32>),
            t.ansi is None,
            t.markdown.is_empty(),
    {
        let (background, panel, foreground, muted, accent) = match self {
            ThemePreset::Rockdown => ("#171b22", "#1e242e", "#dce3ec", "#8995a7", "#9cc7b5"),
            ThemePreset::Paper => ("#faf9f6", "#eeede9", "#292929", "#6b6b67", "#356d61"),
        };
        let t = Theme {
            preset: String::from_str(self.id()),
            name: String::from_str(self.name()),
            background: String::from_str(background),
            panel: String::from_str(panel),
            foreground: String::from_str(foreground),
            muted: String::from_str(muted),
            accent: String::from_str(accent),
            base: self,
            syntax: [None; 10],
            ansi: None,
            markdown: ThemeMarkdown::empty(),
        };
        assert(t.colors() =~= self.spec_colors());
        assert(t.syntax@ =~= Seq::new(10, |i: int| None::<u32>));
        t
    }

    pub open spec fn spec_syntax_palette(self, dark: bool) -> Seq<u32> {
        match (self, dark) {
            (ThemePreset::Rockdown, true) => seq![0xdce3ecu32, 0x8995a7u32, 0xe09a9au32, 0xd8af85u32, 0xd8cd9bu32, 0x9cc7b5u32, 0x95c5cau32, 0x9cbbe0u32, 0xc3a8dcu32, 0xc5a390u32],
            (ThemePreset::Rockdown, false) => seq![0x29313cu32, 0x586779u32, 0x983c46u32, 0x895322u32, 0x766018u32, 0x356d61u32, 0x286b72u32, 0x365f91u32, 0x72508eu32, 0x79513cu32],
            (ThemePreset::Paper, true) => seq![0xe8e6dfu32, 0xa8a69eu32, 0xd99286u32, 0xd3ac7fu32, 0xc9bf89u32, 0x94b8a2u32, 0x8db8b4u32, 0x94adc7u32, 0xb3a0bdu32, 0xbea18cu32],
            (ThemePreset::Paper, false) => seq![0x292929u32, 0x6b6b67u32, 0x983f35u32, 0x825724u32, 0x756323u32, 0x356d61u32, 0x326a68u32, 0x3f6086u32, 0x75547eu32, 0x78583eu32],
        }
    }

    /// Built-in syntax colors for a light or dark background.
    pub fn syntax_palette(self, dark: bool) -> (r: [u32; 10])
        ensures
            r@ == self.spec_syntax_palette(dark),
    {
        let r: [u32; 10] = match (self, dark) {
            (ThemePreset::Rockdown, true) => [0xdce3ec, 0x8995a7, 0xe09a9a, 0xd8af85, 0xd8cd9b, 0x9cc7b5, 0x95c5ca, 0x9cbbe0, 0xc3a8dc, 0xc5a390],
            (ThemePreset::Rockdown, false) => [0x29313c, 0x586779, 0x983c46, 0x895322, 0x766018, 0x356d61, 0x286b72, 0x365f91, 0x72508e, 0x79513c],
            (ThemePreset::Paper, true) => [0xe8e6df, 0xa8a69e, 0xd99286, 0xd3ac7f, 0xc9bf89, 0x94b8a2, 0x8db8b4, 0x94adc7, 0xb3a0bd, 0xbea18c],
            (ThemePreset::Paper, false) => [0x292929, 0x6b6b67, 0x983f35, 0x825724, 0x756323, 0x356d61, 0x326a68, 0x3f6086, 0x75547e, 0x78583e],
        };
        proof {
            assert(r@ =~= self.spec_syntax_palette(dark));
        }
        r
    }

    pub open spec fn spec_ansi_palette(self, dark: bool) -> Seq<u32> {
        match (self, dark) {
            (ThemePreset::Rockdown, true) => seq![0x20242bu32, 0xe06c75u32, 0x98c379u32, 0xe5c07bu32, 0x61afefu32, 0xc678ddu32, 0x56b6c2u32, 0xdce3ecu32, 0x687385u32, 0xff8590u32, 0xb4e68eu32, 0xffd990u32, 0x89c8ffu32, 0xdda0ffu32, 0x85dbe5u32, 0xffffffu32],
            (ThemePreset::Rockdown, false) => seq![0x20242bu32, 0xa83240u32, 0x426b28u32, 0x805a12u32, 0x2465a0u32, 0x85439bu32, 0x21727du32, 0xdce3ecu32, 0x687385u32, 0xbc3445u32, 0x477827u32, 0x90671au32, 0x276eaeu32, 0x9449adu32, 0x237e89u32, 0xffffffu32],
            (ThemePreset::Paper, true) => seq![0x292929u32, 0xd88078u32, 0x9db787u32, 0xd6b66eu32, 0x8caecbu32, 0xba98b9u32, 0x89bcb0u32, 0xeeede9u32, 0x777773u32, 0xe9968fu32, 0xb0ca9au32, 0xe8c982u32, 0x9fc2dfu32, 0xcdaacbu32, 0x9cd0c3u32, 0xfaf9f6u32],
            (ThemePreset::Paper, false) => seq![0x292929u32, 0x9b3b35u32, 0x4b6b38u32, 0x84671fu32, 0x365f85u32, 0x795177u32, 0x356d61u32, 0xeeede9u32, 0x6b6b67u32, 0xad413bu32, 0x557b3du32, 0x927325u32, 0x3e6e99u32, 0x8b5c88u32, 0x3c7e70u32, 0xfaf9f6u32],
        }
    }

    /// Built-in ansi colors for a light or dark background.
    pub fn ansi_palette(self, dark: bool) -> (r: [u32; 16])
        ensures
            r@ == self.spec_ansi_palette(dark),
    {
        let r: [u32; 16] = match (self, dark) {
            (ThemePreset::Rockdown, true) => [0x20242b, 0xe06c75, 0x98c379, 0xe5c07b, 0x61afef, 0xc678dd, 0x56b6c2, 0xdce3ec, 0x687385, 0xff8590, 0xb4e68e, 0xffd990, 0x89c8ff, 0xdda0ff, 0x85dbe5, 0xffffff],
            (ThemePreset::Rockdown, false) => [0x20242b, 0xa83240, 0x426b28, 0x805a12, 0x2465a0, 0x85439b, 0x21727d, 0xdce3ec, 0x687385, 0xbc3445, 0x477827, 0x90671a, 0x276eae, 0x9449ad, 0x237e89, 0xffffff],
            (ThemePreset::Paper, true) => [0x292929, 0xd88078, 0x9db787, 0xd6b66e, 0x8caecb, 0xba98b9, 0x89bcb0, 0xeeede9, 0x777773, 0xe9968f, 0xb0ca9a, 0xe8c982, 0x9fc2df, 0xcdaacb, 0x9cd0c3, 0xfaf9f6],
            (ThemePreset::Paper, false) => [0x292929, 0x9b3b35, 0x4b6b38, 0x84671f, 0x365f85, 0x795177, 0x356d61, 0xeeede9, 0x6b6b67, 0xad413b, 0x557b3d, 0x927325, 0x3e6e99, 0x8b5c88, 0x3c7e70, 0xfaf9f6],
        };
        proof {
            assert(r@ =~= self.spec_ansi_palette(dark));
        }
        r
    }

}

/// Markdown text colors; `None` keeps the renderer's default.
#[derive(Clone, Debug, Default, PartialEq, Eq)]
pub struct MarkdownColors {
    pub normal: Option<String>,
    pub bold: Option<String>,
    pub italic: Option<String>,
    pub bold_italic: Option<String>,
    pub code: Option<String>,
    pub link: Option<String>,
    pub strikethrough: Option<String>,
    pub quote: Option<String>,
}

/// An optional color for one heading level or the divider.
#[derive(Clone, Debug, Default, PartialEq, Eq)]
pub struct MarkdownColor {
    pub color: Option<String>,
}

/// The Markdown colors a colorscheme supplies.
#[derive(Clone, Debug, Default, PartialEq, Eq)]
pub struct ThemeMarkdown {
    pub colors: MarkdownColors,
    pub h1: MarkdownColor,
    pub h2: MarkdownColor,
    pub h3: MarkdownColor,
    pub h4: MarkdownColor,
    pub h5: MarkdownColor,
    pub h6: MarkdownColor,
    pub divider: MarkdownColor,
}

pub open spec fn opt_view(o: Option<String>) -> Option<Seq<char>> {
    match o {
        Some(s) => Some(s@),
        None => None,
    }
}

impl MarkdownColors {
    /// The eight colors, in the order normal, bold, italic, bold italic, code,
    /// link, strikethrough, quote.
    pub open spec fn views(self) -> Seq<Option<Seq<char>>> {
        seq![
            opt_view(self.normal),
            opt_view(self.bold),
            opt_view(self.italic),
            opt_view(self.bold_italic),
            opt_view(self.code),
            opt_view(self.link),
            opt_view(self.strikethrough),
            opt_view(self.quote),
        ]
    }
}

impl ThemeMarkdown {
    /// The fifteen colors: the eight text colors, headings one to six, divider.
    pub open spec fn views(self) -> Seq<Option<Seq<char>>> {
        self.colors.views() + seq![
            opt_view(self.h1.color),
            opt_view(self.h2.color),
            opt_view(self.h3.color),
            opt_view(self.h4.color),
            opt_view(self.h5.color),
            opt_view(self.h6.color),
            opt_view(self.divider.color),
        ]
    }

    pub open spec fn is_empty(self) -> bool {
        forall|i: int| 0 <= i < self.views().len() ==> #[trigger] self.views()[i] is None
    }

    pub fn empty() -> (m: ThemeMarkdown)
        ensures
            m.is_empty(),
    {
        ThemeMarkdown {
            colors: MarkdownColors {
                normal: None,
                bold: None,
                italic: None,
                bold_italic: None,
                code: None,
                link: None,
                strikethrough: None,
                quote: None,
            },
            h1: MarkdownColor { color: None },
            h2: MarkdownColor { color: None },
            h3: MarkdownColor { color: None },
            h4: MarkdownColor { color: None },
            h5: MarkdownColor { color: None },
            h6: MarkdownColor { color: None },
            divider: MarkdownColor { color: None },
        }
    }
}

/// A complete theme: interface colors, the preset that supplies defaults,
/// and explicit syntax, terminal and Markdown colors.
#[derive(Clone, Debug, PartialEq, Eq)]
pub struct Theme {
    pub preset: String,
    pub name: String,
    pub background: String,
    pub panel: String,
    pub foreground: String,
    pub muted: String,
    pub accent: String,
    /// Supplies the syntax and terminal palettes that are not given explicitly.
    pub base: ThemePreset,
    /// Foreground, comment, variable, constant, type, string, escape, function,
    /// keyword, and embedded-source colors, in that order.
    pub syntax: [Option<u32>; 10],
    pub ansi: Option<[u32; 16]>,
    pub markdown: ThemeMarkdown,
}

impl Theme {
    /// Background, panel, foreground, muted, accent.
    pub open spec fn colors(self) -> Seq<Seq<char>> {
        seq![self.background@, self.panel@, self.foreground@, self.muted@, self.accent@]
    }

    /// Explicit syntax colors, falling back to the base preset's palette for
    /// a light or dark background.
    pub fn syntax_palette(&self, dark: bool) -> (r: [u32; 10])
        ensures
            forall|i: int|
                0 <= i < 10 ==> #[trigger] r@[i] == match self.syntax@[i] {
                    Some(c) => c,
                    None => self.base.spec_syntax_palette(dark)[i],
                },
    {
        let inherited = self.base.syntax_palette(dark);
        let mut r = [0u32; 10];
        let mut i: usize = 0;
        while i < 10
            invariant
                i <= 10,
                inherited@ == self.base.spec_syntax_palette(dark),
                forall|k: int|
                    0 <= k < i ==> #[trigger] r@[k] == match self.syntax@[k] {
                        Some(c) => c,
                        None => inherited@[k],
                    },
            decreases 10 - i,
        {
            r[i] = match self.syntax[i] {
                Some(c) => c,
                None => inherited[i],
            };
            i += 1;
        }
        r
    }

    /// The explicit terminal palette, or the base preset's.
    pub fn ansi_palette(&self, dark: bool) -> (r: [u32; 16])
        ensures
            r@ == match self.ansi {
                Some(a) => a@,
                None => self.base.spec_ansi_palette(dark),
            },
    {
        match self.ansi {
            Some(a) => a,
            None => self.base.ansi_palette(dark),
        }
    }
}

impl Default for Theme {
    fn default() -> (t: Self)
        ensures
            t.preset@ == ThemePreset::Rockdown.spec_id(),
            t.colors() == ThemePreset::Rockdown.spec_colors(),
            t.base == ThemePreset::Rockdown,
    {
        ThemePreset::Rockdown.theme()
    }
}

/// Interface colors and the preset named in a configuration's `[theme]` table.
#[derive(Clone, Debug, Default)]
pub struct ThemeOverlay {
    pub preset: Option<String>,
    pub background: Option<String>,
    pub panel: Option<String>,
    pub foreground: Option<String>,
    pub muted: Option<String>,
    pub accent: Option<String>,
}

pub open spec fn or_keep(value: Option<String>, current: Seq<char>) -> Seq<char> {
    match value {
        Some(v) => v@,
        None => current,
    }
}

impl ThemeOverlay {
    /// Each color the overlay supplies replaces the theme's; the rest stay.
    pub fn apply(self, theme: &mut Theme)
        ensures
            final(theme).background@ == or_keep(self.background, old(theme).background@),
            final(theme).panel@ == or_keep(self.panel, old(theme).panel@),
            final(theme).foreground@ == or_keep(self.foreground, old(theme).foreground@),
            final(theme).muted@ == or_keep(self.muted, old(theme).muted@),
            final(theme).accent@ == or_keep(self.accent, old(theme).accent@),
            final(theme).preset == old(theme).preset,
            final(theme).name == old(theme).name,
            final(theme).base == old(theme).base,
            final(theme).syntax == old(theme).syntax,
            final(theme).ansi == old(theme).ansi,
            final(theme).markdown == old(theme).markdown,
    {
        if let Some(v) = self.background {
            theme.background = v;
        }
        if let Some(v) = self.panel {
            theme.panel = v;
        }
        if let Some(v) = self.foreground {
            theme.foreground = v;
        }
        if let Some(v) = self.muted {
            theme.muted = v;
        }
        if let Some(v) = self.accent {
            theme.accent = v;
        }
    }
}

/// Why a color or colorscheme is refused.
#[derive(Clone, Debug, PartialEq, Eq)]
pub enum ThemeError {
    /// Colors must be six-digit hexadecimal RGB values.
    InvalidColor,
    /// A colorscheme ID must be a filename stem.
    InvalidId,
    /// The ID belongs to a built-in theme.
    ReservedId,
    /// Colorschemes use `base`, not `theme.preset`.
    PresetInColorscheme,
    /// `terminal.ansi` requires exactly 16 colors; it had this many.
    AnsiCount(usize),
    /// An interface color (background, panel, foreground, muted, accent, by
    /// index) is invalid.
    InvalidThemeColor(usize),
    /// A Markdown color (normal, bold, italic, bold italic, code, link,
    /// strikethrough, quote, headings one to six, divider, by index) is invalid.
    InvalidMarkdownColor(usize),
}

pub open spec fn is_hex_digit(c: char) -> bool {
    ('0' <= c && c <= '9') || ('a' <= c && c <= 'f') || ('A' <= c && c <= 'F')
}

pub open spec fn hex_digit_value(c: char) -> nat {
    if '0' <= c && c <= '9' {
        (c as u32 - '0' as u32) as nat
    } else if 'a' <= c && c <= 'f' {
        (c as u32 - 'a' as u32 + 10) as nat
    } else {
        (c as u32 - 'A' as u32 + 10) as nat
    }
}

/// The value of hexadecimal digits, most significant first.
pub open spec fn hex_value(s: Seq<char>) -> nat
    decreases s.len(),
{
    if s.len() == 0 {
        0
    } else {
        hex_value(s.drop_last()) * 16 + hex_digit_value(s.last())
    }
}

/// The digits of a color: an optional leading `#` is removed.
pub open spec fn color_digits(s: Seq<char>) -> Seq<char> {
    if s.len() > 0 && s[0] == '#' {
        s.drop_first()
    } else {
        s
    }
}

pub open spec fn valid_color(s: Seq<char>) -> bool {
    let d = color_digits(s);
    d.len() == 6 && forall|i: int| 0 <= i < 6 ==> is_hex_digit(#[trigger] d[i])
}

pub open spec fn spec_parse_color(s: Seq<char>) -> Result<u32, ThemeError> {
    if valid_color(s) {
        Ok(hex_value(color_digits(s)) as u32)
    } else {
        Err(ThemeError::InvalidColor)
    }
}

proof fn lemma_hex_value_bound(s: Seq<char>)
    requires
        forall|i: int| 0 <= i < s.len() ==> is_hex_digit(#[trigger] s[i]),
    ensures
        hex_value(s) < crate::config::pow16(s.len()),
    decreases s.len(),
{
    if s.len() > 0 {
        assert(forall|i: int|
            0 <= i < s.drop_last().len() ==> #[trigger] s.drop_last()[i] == s[i]);
        lemma_hex_value_bound(s.drop_last());
        assert(is_hex_digit(s[s.len() - 1]));
    }
}

pub open spec fn pow16(k: nat) -> nat
    decreases k,
{
    if k == 0 {
        1
    } else {
        16 * pow16((k - 1) as nat)
    }
}

/// A color is accepted exactly when, after an optional leading `#`, six
/// hexadecimal digits remain; its value is those digits read in base
/// sixteen, so it is at most `0xffffff`.
pub proof fn law_colors_are_six_hex_digits(s: Seq<char>)
    ensures
        spec_parse_color(s) is Ok <==> (color_digits(s).len() == 6 && forall|i: int|
            0 <= i < 6 ==> is_hex_digit(#[trigger] color_digits(s)[i])),
        spec_parse_color(s) matches Ok(v) ==> v as nat == hex_value(color_digits(s)) && v <= 0xffffff,
{
    if valid_color(s) {
        lemma_hex_value_bound(color_digits(s));
        reveal_with_fuel(pow16, 7);
        assert(pow16(6) == 0x1000000);
    }
}

fn hex_digit_exec(c: char) -> (r: Option<u32>)
    ensures
        r is Some <==> is_hex_digit(c),
        r matches Some(v) ==> v == hex_digit_value(c) && v < 16,
{
    if '0' <= c && c <= '9' {
        Some((c as u32) - ('0' as u32))
    } else if 'a' <= c && c <= 'f' {
        Some((c as u32) - ('a' as u32) + 10)
    } else if 'A' <= c && c <= 'F' {
        Some((c as u32) - ('A' as u32) + 10)
    } else {
        None
    }
}

/// Parse `#rrggbb` (the `#` is optional) as a 24-bit RGB value.
pub fn parse_color(value: &str) -> (r: Result<u32, ThemeError>)
    ensures
        r == spec_parse_color(value@),
        r matches Ok(v) ==> v < 0x1000000,
{
    let cs = chars_vec(value);
    let start: usize = if cs.len() > 0 && cs[0] == '#' {
        1
    } else {
        0
    };
    let ghost d = color_digits(cs@);
    assert(d =~= cs@.subrange(start as int, cs@.len() as int));
    if cs.len() - start != 6 {
        return Err(ThemeError::InvalidColor);
    }
    let mut v: u32 = 0;
    let mut i: usize = 0;
    while i < 6
        invariant
            i <= 6,
            start <= 1,
            cs@.len() == start + 6,
            d == color_digits(cs@),
            cs@ == value@,
            d =~= cs@.subrange(start as int, cs@.len() as int),
            forall|k: int| 0 <= k < i ==> is_hex_digit(#[trigger] d[k]),
            v == hex_value(d.take(i as int)),
            v < pow16(i as nat),
        decreases 6 - i,
    {
        let c = cs[start + i];
        assert(d[i as int] == c);
        match hex_digit_exec(c) {
            None => {
                assert(!valid_color(cs@));
                return Err(ThemeError::InvalidColor);
            },
            Some(digit) => {
                proof {
                    assert(d.take(i + 1).drop_last() =~= d.take(i as int));
                    assert(pow16((i + 1) as nat) == 16 * pow16(i as nat));
                    reveal_with_fuel(pow16, 7);
                }
                v = v * 16 + digit;
            },
        }
        i += 1;
    }
    assert(d.take(6) =~= d);
    proof {
        reveal_with_fuel(pow16, 7);
    }
    Ok(v)
}

pub open spec fn spec_valid_theme_id(id: Seq<char>) -> bool {
    &&& id.len() > 0
    &&& id != seq!['.']
    &&& id != seq!['.', '.']
    &&& forall|i: int|
        0 <= i < id.len() ==> {
            let c = #[trigger] id[i];
            c != '/' && c != '\\' && c != ':' && !is_control(c)
        }
}


/// Colorscheme IDs are filename stems: nonempty, not `.` or `..`, and free
/// of path separators, drive colons and control characters.
pub fn validate_theme_id(id: &str) -> (r: Result<(), ThemeError>)
    ensures
        r is Ok <==> spec_valid_theme_id(id@),
        r matches Err(e) ==> e == ThemeError::InvalidId,
{
    let cs = chars_vec(id);
    let dot: [char; 1] = ['.'];
    let dots: [char; 2] = ['.', '.'];
    assert(dot@ =~= seq!['.']);
    assert(dots@ =~= seq!['.', '.']);
    if cs.len() == 0 || chars_equal(cs.as_slice(), &dot) || chars_equal(cs.as_slice(), &dots) {
        return Err(ThemeError::InvalidId);
    }
    assert(cs@.len() > 0 && cs@ != seq!['.'] && cs@ != seq!['.', '.']);
    let mut i: usize = 0;
    while i < cs.len()
        invariant
            i <= cs.len(),
            cs@ == id@,
            cs@.len() > 0 && cs@ != seq!['.'] && cs@ != seq!['.', '.'],
            forall|k: int|
                0 <= k < i ==> {
                    let c = #[trigger] cs@[k];
                    c != '/' && c != '\\' && c != ':' && !is_control(c)
                },
        decreases cs.len() - i,
    {
        let c = cs[i];
        let v = c as u32;
        if c == '/' || c == '\\' || c == ':' || v <= 0x1f || (0x7f <= v && v <= 0x9f) {
            assert(id@[i as int] == c);
            return Err(ThemeError::InvalidId);
        }
        i += 1;
    }
    Ok(())
}

/// A colorscheme file may not take a built-in theme's ID.
pub fn check_colorscheme_id(id: &str) -> (r: Result<(), ThemeError>)
    ensures
        !spec_valid_theme_id(id@) ==> r == Err::<(), _>(ThemeError::InvalidId),
        spec_valid_theme_id(id@) && ThemePreset::spec_from_id(id@) is Some ==> r == Err::<(), _>(
            ThemeError::ReservedId,
        ),
        spec_valid_theme_id(id@) && ThemePreset::spec_from_id(id@) is None ==> r is Ok,
{
    validate_theme_id(id)?;
    if ThemePreset::from_id(id).is_some() {
        return Err(ThemeError::ReservedId);
    }
    Ok(())
}

/// Shortcut actions that key bindings may name.
pub open spec fn shortcut_actions() -> Seq<Seq<char>> {
    seq![
        "save"@, "new"@, "open"@, "save-as"@, "paste"@, "undo"@, "redo"@, "explorer"@,
        "terminal"@, "themes"@, "ui-mode"@, "outline"@, "tab-bar"@, "status-bar"@, "editor"@,
        "help"@, "buffer-delete"@, "previous-buffer"@, "next-buffer"@,
    ]
}

/// Whether a key binding names a known action.
pub fn is_shortcut_action(action: &str) -> (r: bool)
    ensures
        r == shortcut_actions().contains(action@),
{
    let known: [&str; 19] = [
        "save", "new", "open", "save-as", "paste", "undo", "redo", "explorer", "terminal",
        "themes", "ui-mode", "outline", "tab-bar", "status-bar", "editor", "help",
        "buffer-delete", "previous-buffer", "next-buffer",
    ];
    let cs = chars_vec(action);
    let mut i: usize = 0;
    assert(known@.map_values(|s: &str| s@) =~= shortcut_actions());
    while i < 19
        invariant
            i <= 19,
            cs@ == action@,
            known@.map_values(|s: &str| s@) == shortcut_actions(),
            forall|k: int| 0 <= k < i ==> shortcut_actions()[k] != action@,
        decreases 19 - i,
    {
        let candidate = chars_vec(known[i]);
        assert(candidate@ == shortcut_actions()[i as int]);
        if chars_equal(cs.as_slice(), candidate.as_slice()) {
            return true;
        }
        i += 1;
    }
    false
}

// ---------------------------------------------------------------------------
// Colorscheme files.

/// A colorscheme file's settings as written: its name, the preset it builds
/// on, interface colors, syntax colors by role, a terminal palette and
/// Markdown colors.
pub struct ThemeFile {
    pub name: Option<String>,
    pub base: ThemePreset,
    pub theme: ThemeOverlay,
    /// Foreground, comment, variable, constant, type, string, escape,
    /// function, keyword and embedded-source colors.
    pub syntax: Vec<Option<String>>,
    pub ansi: Option<Vec<String>>,
    pub markdown: ThemeMarkdown,
}

pub open spec fn opt_color_ok(c: Option<String>) -> bool {
    match c {
        Some(s) => valid_color(s@),
        None => true,
    }
}

pub open spec fn parsed_opt(c: Option<String>) -> Option<u32> {
    match c {
        Some(s) => Some(spec_parse_color(s@)->Ok_0),
        None => None,
    }
}

/// The first index at or after `i` whose color is present and invalid.
pub open spec fn first_bad(cs: Seq<Option<Seq<char>>>, i: int) -> Option<usize>
    decreases cs.len() - i,
{
    if i < 0 || i >= cs.len() {
        None
    } else if cs[i] matches Some(c) && !valid_color(c) {
        Some(i as usize)
    } else {
        first_bad(cs, i + 1)
    }
}

/// The theme a colorscheme file with ID `id` describes, or why it is refused:
/// an invalid syntax or terminal color, a `theme.preset` (colorschemes name a
/// `base`), a terminal palette of other than sixteen colors, or an invalid
/// interface or Markdown color, in that order.
pub open spec fn spec_theme_file_error(f: ThemeFile) -> Option<ThemeError> {
    if exists|i: int| 0 <= i < f.syntax@.len() && !opt_color_ok(#[trigger] f.syntax@[i]) {
        Some(ThemeError::InvalidColor)
    } else if f.ansi is Some && exists|i: int|
        0 <= i < f.ansi->0@.len() && !valid_color(#[trigger] f.ansi->0@[i]@) {
        Some(ThemeError::InvalidColor)
    } else if f.theme.preset is Some {
        Some(ThemeError::PresetInColorscheme)
    } else if f.ansi is Some && f.ansi->0@.len() != 16 {
        Some(ThemeError::AnsiCount(f.ansi->0@.len() as usize))
    } else {
        let colors = seq![
            or_keep(f.theme.background, f.base.spec_colors()[0]),
            or_keep(f.theme.panel, f.base.spec_colors()[1]),
            or_keep(f.theme.foreground, f.base.spec_colors()[2]),
            or_keep(f.theme.muted, f.base.spec_colors()[3]),
            or_keep(f.theme.accent, f.base.spec_colors()[4]),
        ];
        match first_bad(colors.map_values(|c: Seq<char>| Some(c)), 0) {
            Some(k) => Some(ThemeError::InvalidThemeColor(k)),
            None => match first_bad(f.markdown.views(), 0) {
                Some(k) => Some(ThemeError::InvalidMarkdownColor(k)),
                None => None,
            },
        }
    }
}

fn first_bad_exec(cs: &Vec<Option<String>>) -> (r: Option<usize>)
    ensures
        r == first_bad(cs@.map_values(|c: Option<String>| opt_view(c)), 0),
{
    let ghost v = cs@.map_values(|c: Option<String>| opt_view(c));
    let mut i: usize = 0;
    while i < cs.len()
        invariant
            i <= cs@.len(),
            v == cs@.map_values(|c: Option<String>| opt_view(c)),
            first_bad(v, i as int) == first_bad(v, 0),
        decreases cs.len() - i,
    {
        match &cs[i] {
            Some(c) => {
                if parse_color(c.as_str()).is_err() {
                    return Some(i);
                }
            },
            None => {},
        }
        i += 1;
    }
    None
}

fn clone_opt(c: &Option<String>) -> (r: Option<String>)
    ensures
        opt_view(r) == opt_view(*c),
{
    match c {
        Some(s) => Some(s.clone()),
        None => None,
    }
}

impl ThemeMarkdown {
    /// The fifteen colors, as a vector in the order of `views`.
    pub fn colors_vec(&self) -> (r: Vec<Option<String>>)
        ensures
            r@.map_values(|c: Option<String>| opt_view(c)) == self.views(),
    {
        let r = vec![
            clone_opt(&self.colors.normal),
            clone_opt(&self.colors.bold),
            clone_opt(&self.colors.italic),
            clone_opt(&self.colors.bold_italic),
            clone_opt(&self.colors.code),
            clone_opt(&self.colors.link),
            clone_opt(&self.colors.strikethrough),
            clone_opt(&self.colors.quote),
            clone_opt(&self.h1.color),
            clone_opt(&self.h2.color),
            clone_opt(&self.h3.color),
            clone_opt(&self.h4.color),
            clone_opt(&self.h5.color),
            clone_opt(&self.h6.color),
            clone_opt(&self.divider.color),
        ];
        assert(r@.map_values(|c: Option<String>| opt_view(c)) =~= self.views());
        r
    }
}

impl Theme {
    /// The five interface colors, as a vector in the order of `colors`.
    pub fn colors_vec(&self) -> (r: Vec<Option<String>>)
        ensures
            r@.map_values(|c: Option<String>| opt_view(c)) == self.colors().map_values(
                |c: Seq<char>| Some(c),
            ),
    {
        let r = vec![
            Some(self.background.clone()),
            Some(self.panel.clone()),
            Some(self.foreground.clone()),
            Some(self.muted.clone()),
            Some(self.accent.clone()),
        ];
        assert(r@.map_values(|c: Option<String>| opt_view(c)) =~= self.colors().map_values(
            |c: Seq<char>| Some(c),
        ));
        r
    }
}

/// Build the theme a colorscheme file describes. Its ID becomes the theme's
/// preset and, without a `name`, its name; colors it leaves out come from
/// its base preset.
pub fn theme_from_file(id: &str, file: ThemeFile) -> (r: Result<Theme, ThemeError>)
    requires
        file.syntax@.len() == 10,
    ensures
        match spec_theme_file_error(file) {
            Some(e) => r == Err::<Theme, _>(e),
            None => r matches Ok(t) && {
                &&& t.preset@ == id@
                &&& t.name@ == match file.name {
                    Some(n) => n@,
                    None => id@,
                }
                &&& t.base == file.base
                &&& t.colors() == seq![
                    or_keep(file.theme.background, file.base.spec_colors()[0]),
                    or_keep(file.theme.panel, file.base.spec_colors()[1]),
                    or_keep(file.theme.foreground, file.base.spec_colors()[2]),
                    or_keep(file.theme.muted, file.base.spec_colors()[3]),
                    or_keep(file.theme.accent, file.base.spec_colors()[4]),
                ]
                &&& forall|i: int| 0 <= i < 10 ==> #[trigger] t.syntax@[i] == parsed_opt(file.syntax@[i])
                &&& (t.ansi is Some <==> file.ansi is Some)
                &&& (t.ansi is Some ==> forall|i: int|
                    0 <= i < 16 ==> #[trigger] t.ansi->0@[i] == spec_parse_color(file.ansi->0@[i]@)->Ok_0)
                &&& t.markdown == file.markdown
            },
        },
{
    let mut syntax: [Option<u32>; 10] = [None; 10];
    let mut i: usize = 0;
    while i < 10
        invariant
            i <= 10,
            file.syntax@.len() == 10,
            forall|k: int| 0 <= k < i ==> opt_color_ok(#[trigger] file.syntax@[k]),
            forall|k: int| 0 <= k < i ==> #[trigger] syntax@[k] == parsed_opt(file.syntax@[k]),
        decreases 10 - i,
    {
        match &file.syntax[i] {
            Some(c) => match parse_color(c.as_str()) {
                Ok(v) => {
                    syntax[i] = Some(v);
                },
                Err(_) => {
                    assert(!opt_color_ok(file.syntax@[i as int]));
                    return Err(ThemeError::InvalidColor);
                },
            },
            None => {
                syntax[i] = None;
            },
        }
        i += 1;
    }
    assert(forall|k: int| 0 <= k < file.syntax@.len() ==> opt_color_ok(#[trigger] file.syntax@[k]));
    let mut ansi_values: Vec<u32> = Vec::new();
    match &file.ansi {
        Some(a) => {
            let mut k: usize = 0;
            while k < a.len()
                invariant
                    k <= a@.len(),
                    file.ansi == Some(*a),
                    forall|j: int| 0 <= j < file.syntax@.len() ==> opt_color_ok(#[trigger] file.syntax@[j]),
                    ansi_values@.len() == k,
                    forall|j: int| 0 <= j < k ==> valid_color(#[trigger] a@[j]@),
                    forall|j: int| 0 <= j < k ==> #[trigger] ansi_values@[j] == spec_parse_color(a@[j]@)->Ok_0,
                decreases a.len() - k,
            {
                match parse_color(a[k].as_str()) {
                    Ok(v) => {
                        ansi_values.push(v);
                    },
                    Err(_) => {
                        assert(!valid_color(a@[k as int]@));
                        return Err(ThemeError::InvalidColor);
                    },
                }
                k += 1;
            }
        },
        None => {},
    }
    if file.theme.preset.is_some() {
        return Err(ThemeError::PresetInColorscheme);
    }
    let ansi: Option<[u32; 16]> = match &file.ansi {
        Some(a) => {
            if a.len() != 16 {
                return Err(ThemeError::AnsiCount(a.len()));
            }
            let mut arr = [0u32; 16];
            let mut k: usize = 0;
            while k < 16
                invariant
                    k <= 16,
                    ansi_values@.len() == 16,
                    a@.len() == 16,
                    forall|j: int| 0 <= j < 16 ==> #[trigger] ansi_values@[j] == spec_parse_color(a@[j]@)->Ok_0,
                    forall|j: int| 0 <= j < k ==> #[trigger] arr@[j] == ansi_values@[j],
                decreases 16 - k,
            {
                arr[k] = ansi_values[k];
                k += 1;
            }
            Some(arr)
        },
        None => None,
    };
    let mut theme = file.base.theme();
    theme.preset = id.to_owned();
    theme.name = match file.name {
        Some(n) => n,
        None => id.to_owned(),
    };
    let overlay = file.theme;
    overlay.apply(&mut theme);
    theme.syntax = syntax;
    theme.ansi = ansi;
    theme.markdown = file.markdown;
    if let Some(k) = first_bad_exec(&theme.colors_vec()) {
        return Err(ThemeError::InvalidThemeColor(k));
    }
    if let Some(k) = first_bad_exec(&theme.markdown.colors_vec()) {
        return Err(ThemeError::InvalidMarkdownColor(k));
    }
    Ok(theme)
}

/// Markdown colors from a configuration, each one it leaves out inherited
/// from the theme; only explicitly supplied values override.
pub open spec fn inherited(own: Option<String>, from: Option<String>) -> Option<Seq<char>> {
    match own {
        Some(c) => Some(c@),
        None => opt_view(from),
    }
}

fn inherit(own: Option<String>, from: &Option<String>) -> (r: Option<String>)
    ensures
        opt_view(r) == inherited(own, *from),
{
    match own {
        Some(c) => Some(c),
        None => clone_opt(from),
    }
}

pub fn inherit_markdown_colors(own: ThemeMarkdown, from: &ThemeMarkdown) -> (r: ThemeMarkdown)
    ensures
        opt_view(r.colors.normal) == inherited(own.colors.normal, from.colors.normal),
        opt_view(r.colors.bold) == inherited(own.colors.bold, from.colors.bold),
        opt_view(r.colors.italic) == inherited(own.colors.italic, from.colors.italic),
        opt_view(r.colors.bold_italic) == inherited(own.colors.bold_italic, from.colors.bold_italic),
        opt_view(r.colors.code) == inherited(own.colors.code, from.colors.code),
        opt_view(r.colors.link) == inherited(own.colors.link, from.colors.link),
        opt_view(r.colors.strikethrough) == inherited(own.colors.strikethrough, from.colors.strikethrough),
        opt_view(r.colors.quote) == inherited(own.colors.quote, from.colors.quote),
        opt_view(r.h1.color) == inherited(own.h1.color, from.h1.color),
        opt_view(r.h2.color) == inherited(own.h2.color, from.h2.color),
        opt_view(r.h3.color) == inherited(own.h3.color, from.h3.color),
        opt_view(r.h4.color) == inherited(own.h4.color, from.h4.color),
        opt_view(r.h5.color) == inherited(own.h5.color, from.h5.color),
        opt_view(r.h6.color) == inherited(own.h6.color, from.h6.color),
        opt_view(r.divider.color) == inherited(own.divider.color, from.divider.color),
{
    ThemeMarkdown {
        colors: MarkdownColors {
            normal: inherit(own.colors.normal, &from.colors.normal),
            bold: inherit(own.colors.bold, &from.colors.bold),
            italic: inherit(own.colors.italic, &from.colors.italic),
            bold_italic: inherit(own.colors.bold_italic, &from.colors.bold_italic),
            code: inherit(own.colors.code, &from.colors.code),
            link: inherit(own.colors.link, &from.colors.link),
            strikethrough: inherit(own.colors.strikethrough, &from.colors.strikethrough),
            quote: inherit(own.colors.quote, &from.colors.quote),
        },
        h1: MarkdownColor { color: inherit(own.h1.color, &from.h1.color) },
        h2: MarkdownColor { color: inherit(own.h2.color, &from.h2.color) },
        h3: MarkdownColor { color: inherit(own.h3.color, &from.h3.color) },
        h4: MarkdownColor { color: inherit(own.h4.color, &from.h4.color) },
        h5: MarkdownColor { color: inherit(own.h5.color, &from.h5.color) },
        h6: MarkdownColor { color: inherit(own.h6.color, &from.h6.color) },
        divider: MarkdownColor { color: inherit(own.divider.color, &from.divider.color) },
    }
}

/// The color checks of a configuration: every interface color, then every
/// Markdown color that is given.
pub fn validate_colors(theme: &Theme, markdown: &ThemeMarkdown) -> (r: Result<(), ThemeError>)
    ensures
        match first_bad(theme.colors().map_values(|c: Seq<char>| Some(c)), 0) {
            Some(k) => r == Err::<(), _>(ThemeError::InvalidThemeColor(k)),
            None => match first_bad(markdown.views(), 0) {
                Some(k) => r == Err::<(), _>(ThemeError::InvalidMarkdownColor(k)),
                None => r is Ok,
            },
        },
{
    if let Some(k) = first_bad_exec(&theme.colors_vec()) {
        return Err(ThemeError::InvalidThemeColor(k));
    }
    if let Some(k) = first_bad_exec(&markdown.colors_vec()) {
        return Err(ThemeError::InvalidMarkdownColor(k));
    }
    Ok(())
}

/// The colorscheme ID of a file name: its stem, when its extension is
/// exactly `toml`.
pub open spec fn colorscheme_stem(name: Seq<char>) -> Option<Seq<char>> {
    if crate::document::extension(crate::document::file_name(name)) == Some("toml"@) {
        Some(name.subrange(0, name.len() - 5))
    } else {
        None
    }
}

/// The IDs of the colorschemes among the file names of a directory, in
/// ascending order.
pub open spec fn spec_colorscheme_ids(names: Seq<Seq<char>>) -> Seq<Seq<char>> {
    names.filter(|n: Seq<char>| colorscheme_stem(n) is Some).map_values(
        |n: Seq<char>| colorscheme_stem(n)->0,
    ).sort_by(crate::text::lex_order())
}

fn is_toml(e: &Vec<char>) -> (r: bool)
    ensures
        r == (e@ == "toml"@),
{
    proof {
        reveal_strlit("toml");
    }
    let w: [char; 4] = ['t', 'o', 'm', 'l'];
    assert(w@ =~= "toml"@);
    chars_equal(e.as_slice(), &w)
}

pub fn colorscheme_ids(names: &Vec<String>) -> (r: Vec<String>)
    ensures
        crate::text::strings_view(r@) == spec_colorscheme_ids(crate::text::strings_view(names@)),
{
    let ghost nv = crate::text::strings_view(names@);
    let ghost keep = |n: Seq<char>| colorscheme_stem(n) is Some;
    let ghost stem = |n: Seq<char>| colorscheme_stem(n)->0;
    let mut ids: Vec<String> = Vec::new();
    let mut i: usize = 0;
    while i < names.len()
        invariant
            i <= names@.len(),
            nv == crate::text::strings_view(names@),
            keep == (|n: Seq<char>| colorscheme_stem(n) is Some),
            stem == (|n: Seq<char>| colorscheme_stem(n)->0),
            crate::text::strings_view(ids@) == nv.take(i as int).filter(keep).map_values(stem),
        decreases names.len() - i,
    {
        let ghost before = crate::text::strings_view(ids@);
        assert(nv.take(i + 1).drop_last() =~= nv.take(i as int));
        let name = &names[i];
        assert(name@ == nv[i as int]);
        match crate::document::path_extension(name.as_str()) {
            Some(e) => {
                if is_toml(&e) {
                    proof {
                        reveal_strlit("toml");
                        lemma_extension_suffix(name@);
                    }
                    let n = name.as_str().unicode_len();
                    let id = name.as_str().substring_char(0, n - 5).to_owned();
                    ids.push(id);
                    assert(crate::text::strings_view(ids@) =~= before.push(stem(nv[i as int])));
                } else {
                    assert(crate::text::strings_view(ids@) =~= before);
                }
            },
            None => {
                assert(crate::text::strings_view(ids@) =~= before);
            },
        }
        assert(nv.take(i + 1).filter(keep) == if keep(nv[i as int]) {
            nv.take(i as int).filter(keep).push(nv[i as int])
        } else {
            nv.take(i as int).filter(keep)
        }) by {
            reveal(Seq::filter);
            assert(nv.take(i + 1).drop_last() =~= nv.take(i as int));
            assert(nv.take(i + 1).last() == nv[i as int]);
        }
        i += 1;
    }
    assert(nv.take(names@.len() as int) =~= nv);
    crate::text::sort_strings(ids)
}

/// A name whose file name's extension is `toml` ends in `.toml`.
proof fn lemma_extension_suffix(name: Seq<char>)
    requires
        crate::document::extension(crate::document::file_name(name)) == Some("toml"@),
    ensures
        name.len() >= 5,
{
    reveal_strlit("toml");
    let f = crate::document::file_name(name);
    crate::document::lemma_file_name_suffix(name);
    let i = choose|i: int| 0 < i < f.len() && f[i] == '.' && forall|k: int| i < k < f.len() ==> #[trigger] f[k] != '.';
    assert(f.subrange(i + 1, f.len() as int).len() == 4);
}

/// A configuration file must have the extension `toml` (exactly).
pub fn is_toml_path(path: &str) -> (r: bool)
    ensures
        r == (crate::document::extension(crate::document::file_name(path@)) == Some("toml"@)),
{
    match crate::document::path_extension(path) {
        Some(e) => is_toml(&e),
        None => false,
    }
}


/// Why a configuration is refused.
#[derive(Clone, Copy, Debug, PartialEq, Eq, Structural)]
pub enum ConfigError {
    /// `image_assets_dir` must be a nonempty relative child path.
    AssetsDir,
    /// A measure (font size, line height, explorer width, writing width,
    /// terminal height, by index) is not finite or out of its range.
    MeasureOutOfRange(usize),
    /// `font_family` and `shell` must not be empty.
    EmptyFontOrShell,
    /// An interface color (background, panel, foreground, muted, accent, by
    /// index) is invalid.
    InvalidThemeColor(usize),
    /// A Markdown color (in the order of `ThemeMarkdown::views`) is invalid.
    InvalidMarkdownColor(usize),
    /// The font size of the heading of this level is out of range.
    HeadingSize(usize),
    /// The divider thickness is out of range.
    DividerThickness,
    /// The key of the shortcut at this index does not parse.
    InvalidShortcut(usize),
    /// The shortcut at this index names no known action.
    UnknownAction(usize),
}

/// A color that is given must be valid.
pub open spec fn color_ok(c: Option<Seq<char>>) -> bool {
    match c {
        Some(v) => valid_color(v),
        None => true,
    }
}

/// For each heading level, its font size check and then its color check.
pub open spec fn heading_checks(sizes: Seq<bool>, md: Seq<Option<Seq<char>>>, levels: nat) -> Seq<(bool, ConfigError)>
    decreases levels,
{
    if levels == 0 {
        Seq::empty()
    } else {
        let l = (levels - 1) as int;
        heading_checks(sizes, md, (levels - 1) as nat).push((sizes[l], ConfigError::HeadingSize((l + 1) as usize))).push(
            (color_ok(md[8 + l]), ConfigError::InvalidMarkdownColor((8 + l) as usize)),
        )
    }
}

/// For each shortcut, whether its key parses and then whether its action is known.
pub open spec fn shortcut_checks(shortcuts: Seq<(bool, Seq<char>)>) -> Seq<(bool, ConfigError)>
    decreases shortcuts.len(),
{
    if shortcuts.len() == 0 {
        Seq::empty()
    } else {
        let k = shortcuts.len() - 1;
        shortcut_checks(shortcuts.drop_last()).push((shortcuts[k].0, ConfigError::InvalidShortcut(k as usize))).push(
            (shortcut_actions().contains(shortcuts[k].1), ConfigError::UnknownAction(k as usize)),
        )
    }
}

/// The checks of a configuration, in the order they are made: the assets
/// directory, the measures, the font family and shell, the interface
/// colors, the Markdown colors, each heading's size and color, the divider
/// color and thickness, and each shortcut.
pub open spec fn config_checks(
    assets_dir: Seq<char>,
    measures: Seq<bool>,
    font_family: Seq<char>,
    shell: Seq<char>,
    theme_colors: Seq<Seq<char>>,
    md: Seq<Option<Seq<char>>>,
    heading_sizes: Seq<bool>,
    divider_thickness: bool,
    shortcuts: Seq<(bool, Seq<char>)>,
) -> Seq<(bool, ConfigError)> {
    seq![(crate::image_assets::valid_assets_dir(assets_dir), ConfigError::AssetsDir)] + Seq::new(
        5,
        |i: int| (measures[i], ConfigError::MeasureOutOfRange(i as usize)),
    ) + seq![
        (
            !crate::text::all_whitespace_from(font_family, 0) && !crate::text::all_whitespace_from(shell, 0),
            ConfigError::EmptyFontOrShell,
        ),
    ] + Seq::new(5, |i: int| (valid_color(theme_colors[i]), ConfigError::InvalidThemeColor(i as usize)))
        + Seq::new(8, |i: int| (color_ok(md[i]), ConfigError::InvalidMarkdownColor(i as usize)))
        + heading_checks(heading_sizes, md, 6) + seq![
        (color_ok(md[14]), ConfigError::InvalidMarkdownColor(14)),
        (divider_thickness, ConfigError::DividerThickness),
    ] + shortcut_checks(shortcuts)
}

/// The error of the first check that fails, if any.
pub open spec fn first_failure(checks: Seq<(bool, ConfigError)>) -> Result<(), ConfigError>
    decreases checks.len(),
{
    if checks.len() == 0 {
        Ok(())
    } else {
        match first_failure(checks.drop_last()) {
            Err(e) => Err(e),
            Ok(()) => if checks.last().0 {
                Ok(())
            } else {
                Err(checks.last().1)
            },
        }
    }
}

pub open spec fn shortcut_views(v: Seq<(bool, String)>) -> Seq<(bool, Seq<char>)> {
    v.map_values(|p: (bool, String)| (p.0, p.1@))
}

fn color_ok_exec(c: &Option<String>) -> (r: bool)
    ensures
        r == color_ok(opt_view(*c)),
{
    match c {
        Some(v) => parse_color(v.as_str()).is_ok(),
        None => true,
    }
}

fn first_failure_exec(checks: &Vec<(bool, ConfigError)>) -> (r: Result<(), ConfigError>)
    ensures
        r == first_failure(checks@),
{
    let mut i: usize = 0;
    while i < checks.len()
        invariant
            i <= checks@.len(),
            first_failure(checks@.take(i as int)) == Ok::<(), ConfigError>(()),
        decreases checks.len() - i,
    {
        assert(checks@.take(i + 1).drop_last() =~= checks@.take(i as int));
        let (ok, error) = checks[i];
        if !ok {
            proof {
                lemma_first_failure_extends(checks@, i + 1);
            }
            return Err(error);
        }
        i += 1;
    }
    assert(checks@.take(checks@.len() as int) =~= checks@);
    Ok(())
}

proof fn lemma_first_failure_extends(checks: Seq<(bool, ConfigError)>, n: int)
    requires
        0 <= n <= checks.len(),
        first_failure(checks.take(n)) is Err,
    ensures
        first_failure(checks) == first_failure(checks.take(n)),
    decreases checks.len() - n,
{
    if n < checks.len() {
        assert(checks.take(n + 1).drop_last() =~= checks.take(n));
        lemma_first_failure_extends(checks, n + 1);
    } else {
        assert(checks.take(n) =~= checks);
    }
}

/// Validate a configuration. The measures (font size, line height, explorer
/// width, writing width, terminal height), the heading font sizes and the
/// divider thickness are given by whether each lies within its range, and
/// each shortcut by whether its key parses, beside its action.
pub fn validate_config(
    assets_dir: &str,
    measures: &[bool; 5],
    font_family: &str,
    shell: &str,
    theme: &Theme,
    markdown: &ThemeMarkdown,
    heading_sizes: &[bool; 6],
    divider_thickness: bool,
    shortcuts: &Vec<(bool, String)>,
) -> (r: Result<(), ConfigError>)
    ensures
        r == first_failure(
            config_checks(
                assets_dir@,
                measures@,
                font_family@,
                shell@,
                theme.colors(),
                markdown.views(),
                heading_sizes@,
                divider_thickness,
                shortcut_views(shortcuts@),
            ),
        ),
{
    let ghost md = markdown.views();
    let colors = markdown.colors_vec();
    assert(colors@.len() == 15) by {
        assert(colors@.map_values(|c: Option<String>| opt_view(c)).len() == 15);
    }
    assert forall|i: int| 0 <= i < 15 implies opt_view(#[trigger] colors@[i]) == md[i] by {
        assert(colors@.map_values(|c: Option<String>| opt_view(c))[i] == md[i]);
    }
    let mut checks: Vec<(bool, ConfigError)> = Vec::new();
    checks.push((crate::image_assets::validate_assets_dir(assets_dir).is_ok(), ConfigError::AssetsDir));
    let ghost base0 = checks@;
    let mut i: usize = 0;
    while i < 5
        invariant
            i <= 5,
            checks@ == base0 + Seq::new(i as nat, |k: int| (measures@[k], ConfigError::MeasureOutOfRange(k as usize))),
        decreases 5 - i,
    {
        checks.push((measures[i], ConfigError::MeasureOutOfRange(i)));
        assert(checks@ =~= base0 + Seq::new((i + 1) as nat, |k: int| (measures@[k], ConfigError::MeasureOutOfRange(k as usize))));
        i += 1;
    }
    let named = !crate::text::is_blank(font_family) && !crate::text::is_blank(shell);
    checks.push((named, ConfigError::EmptyFontOrShell));
    let tc = theme.colors_vec();
    assert(tc@.len() == 5) by {
        assert(tc@.map_values(|c: Option<String>| opt_view(c)).len() == theme.colors().map_values(
            |c: Seq<char>| Some(c),
        ).len());
    }
    assert forall|k: int| 0 <= k < 5 implies opt_view(#[trigger] tc@[k]) == Some(theme.colors()[k]) by {
        assert(tc@.map_values(|c: Option<String>| opt_view(c))[k] == theme.colors().map_values(
            |c: Seq<char>| Some(c),
        )[k]);
    }
    let ghost base1 = checks@;
    let mut i: usize = 0;
    while i < 5
        invariant
            i <= 5,
            tc@.len() == 5,
            forall|k: int| 0 <= k < 5 ==> opt_view(#[trigger] tc@[k]) == Some(theme.colors()[k]),
            checks@ == base1 + Seq::new(i as nat, |k: int| (valid_color(theme.colors()[k]), ConfigError::InvalidThemeColor(k as usize))),
        decreases 5 - i,
    {
        let ok = color_ok_exec(&tc[i]);
        checks.push((ok, ConfigError::InvalidThemeColor(i)));
        assert(checks@ =~= base1 + Seq::new((i + 1) as nat, |k: int| (valid_color(theme.colors()[k]), ConfigError::InvalidThemeColor(k as usize))));
        i += 1;
    }
    let ghost base2 = checks@;
    let mut i: usize = 0;
    while i < 8
        invariant
            i <= 8,
            colors@.len() == 15,
            forall|k: int| 0 <= k < 15 ==> opt_view(#[trigger] colors@[k]) == md[k],
            checks@ == base2 + Seq::new(i as nat, |k: int| (color_ok(md[k]), ConfigError::InvalidMarkdownColor(k as usize))),
        decreases 8 - i,
    {
        let ok = color_ok_exec(&colors[i]);
        checks.push((ok, ConfigError::InvalidMarkdownColor(i)));
        assert(checks@ =~= base2 + Seq::new((i + 1) as nat, |k: int| (color_ok(md[k]), ConfigError::InvalidMarkdownColor(k as usize))));
        i += 1;
    }
    let ghost base3 = checks@;
    let mut l: usize = 0;
    while l < 6
        invariant
            l <= 6,
            colors@.len() == 15,
            forall|k: int| 0 <= k < 15 ==> opt_view(#[trigger] colors@[k]) == md[k],
            checks@ == base3 + heading_checks(heading_sizes@, md, l as nat),
        decreases 6 - l,
    {
        checks.push((heading_sizes[l], ConfigError::HeadingSize(l + 1)));
        let ok = color_ok_exec(&colors[8 + l]);
        checks.push((ok, ConfigError::InvalidMarkdownColor(8 + l)));
        assert(checks@ =~= base3 + heading_checks(heading_sizes@, md, (l + 1) as nat));
        l += 1;
    }
    let ok = color_ok_exec(&colors[14]);
    checks.push((ok, ConfigError::InvalidMarkdownColor(14)));
    checks.push((divider_thickness, ConfigError::DividerThickness));
    let ghost base4 = checks@;
    let mut k: usize = 0;
    while k < shortcuts.len()
        invariant
            k <= shortcuts@.len(),
            checks@ == base4 + shortcut_checks(shortcut_views(shortcuts@).take(k as int)),
        decreases shortcuts.len() - k,
    {
        let ghost sv = shortcut_views(shortcuts@);
        assert(sv.take(k + 1).drop_last() =~= sv.take(k as int));
        let (parses, action) = (shortcuts[k].0, &shortcuts[k].1);
        checks.push((parses, ConfigError::InvalidShortcut(k)));
        let known = is_shortcut_action(action.as_str());
        checks.push((known, ConfigError::UnknownAction(k)));
        assert(checks@ =~= base4 + shortcut_checks(sv.take(k + 1)));
        k += 1;
    }
    assert(shortcut_views(shortcuts@).take(shortcuts@.len() as int) =~= shortcut_views(shortcuts@));
    assert(checks@ =~= config_checks(
        assets_dir@,
        measures@,
        font_family@,
        shell@,
        theme.colors(),
        markdown.views(),
        heading_sizes@,
        divider_thickness,
        shortcut_views(shortcuts@),
    ));
    first_failure_exec(&checks)
}

/// A colorscheme ID is refused exactly when it is empty, `.` or `..`, or
/// holds a path separator (`/` or `\\`), a drive colon or a control
/// character, so an ID never names a file outside the colorscheme directory.
pub proof fn law_theme_ids_stay_in_their_directory(id: Seq<char>)
    ensures
        !spec_valid_theme_id(id) <==> (id.len() == 0 || id == seq!['.'] || id == seq!['.', '.']
            || exists|i: int|
            0 <= i < id.len() && (id[i] == '/' || id[i] == '\\' || id[i] == ':' || is_control(
                #[trigger] id[i],
            ))),
{
}

} // verus!
