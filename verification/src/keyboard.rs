//! Keystrokes as the editor and the terminal read them: a semantic key name,
//! and the text a keystroke commits, if any.
use vstd::prelude::*;
use vstd::string::StringExecFns;

use crate::text::{chars_vec, is_control, is_control_exec};

verus! {

/// A keystroke as the windowing layer reports it: its key name, the text it
/// produced, and the modifiers held.
pub struct KeyStroke {
    pub key: String,
    pub key_char: Option<String>,
    pub control: bool,
    pub platform: bool,
    pub alt: bool,
}

/// Keys whose name is a command: Return (under either name) and the editing
/// and movement keys.
pub open spec fn spec_named_key(key: Seq<char>) -> Option<Seq<char>> {
    if key == "enter"@ || key == "return"@ {
        Some("enter"@)
    } else if key == "tab"@ || key == "escape"@ || key == "backspace"@ || key == "delete"@ || key
        == "left"@ || key == "right"@ || key == "up"@ || key == "down"@ || key == "home"@ || key
        == "end"@ || key == "pageup"@ || key == "pagedown"@ {
        Some(key)
    } else {
        None
    }
}

pub open spec fn has_control(s: Seq<char>) -> bool {
    exists|i: int| 0 <= i < s.len() && is_control(#[trigger] s[i])
}

/// Native events attach `"\n"` to Return and `"\t"` to Tab; those are
/// commands, not committed text, so named keys keep their name. Otherwise the
/// produced text names the key unless it holds control characters.
pub open spec fn spec_key(s: KeyStroke) -> Seq<char> {
    match spec_named_key(s.key@) {
        Some(n) => n,
        None => match s.key_char {
            Some(t) => if has_control(t@) {
                s.key@
            } else {
                t@
            },
            None => s.key@,
        },
    }
}

/// The text a keystroke commits: none with Control, Command or Alt held or
/// for a named key, and none that is empty or holds control characters.
pub open spec fn spec_text(s: KeyStroke) -> Option<Seq<char>> {
    if s.control || s.platform || s.alt || spec_named_key(s.key@) is Some {
        None
    } else {
        match s.key_char {
            Some(t) => if t@.len() > 0 && !has_control(t@) {
                Some(t@)
            } else {
                None
            },
            None => None,
        }
    }
}

fn str_is(s: &String, w: &str) -> (r: bool)
    ensures
        r == (s@ == w@),
{
    *s == w.to_owned()
}

pub fn named_key(key: &String) -> (r: Option<String>)
    ensures
        crate::image_assets::opt_string_view(r) == spec_named_key(key@),
{
    if str_is(key, "enter") || str_is(key, "return") {
        Some("enter".to_owned())
    } else if str_is(key, "tab") || str_is(key, "escape") || str_is(key, "backspace") || str_is(
        key,
        "delete",
    ) || str_is(key, "left") || str_is(key, "right") || str_is(key, "up") || str_is(key, "down")
        || str_is(key, "home") || str_is(key, "end") || str_is(key, "pageup") || str_is(
        key,
        "pagedown",
    ) {
        Some(key.clone())
    } else {
        None
    }
}

fn contains_control(s: &String) -> (r: bool)
    ensures
        r == has_control(s@),
{
    let cs = chars_vec(s.as_str());
    let mut i: usize = 0;
    while i < cs.len()
        invariant
            i <= cs@.len(),
            cs@ == s@,
            forall|k: int| 0 <= k < i ==> !is_control(#[trigger] cs@[k]),
        decreases cs.len() - i,
    {
        if is_control_exec(cs[i]) {
            assert(is_control(s@[i as int]));
            return true;
        }
        i += 1;
    }
    false
}

/// The key name the editor and terminal act on.
pub fn key(stroke: &KeyStroke) -> (r: String)
    ensures
        r@ == spec_key(*stroke),
{
    match named_key(&stroke.key) {
        Some(n) => n,
        None => match &stroke.key_char {
            Some(t) => if contains_control(t) {
                stroke.key.clone()
            } else {
                t.clone()
            },
            None => stroke.key.clone(),
        },
    }
}

/// The text the keystroke commits, if any.
pub fn text(stroke: &KeyStroke) -> (r: Option<String>)
    ensures
        crate::image_assets::opt_string_view(r) == spec_text(*stroke),
{
    if stroke.control || stroke.platform || stroke.alt || named_key(&stroke.key).is_some() {
        return None;
    }
    match &stroke.key_char {
        Some(t) => if !t.as_str().is_empty() && !contains_control(t) {
            Some(t.clone())
        } else {
            None
        },
        None => None,
    }
}

} // verus!
