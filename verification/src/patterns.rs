//! The line patterns that the Unity YAML and meta file readers look for.

use crate::id::is_hex_char;
use vstd::prelude::*;

verus! {

/// A list item in a YAML sequence: `  - value`.
pub const LIST_ITEM_PATTERN: &'static str = r"^  - (.*)$";

/// The header of a MonoBehaviour document: `--- !u!114 &<file id>`.
pub const BEHAVIOUR_HEADER_PATTERN: &'static str = r"^--- !u!114 &([\d]+)$";

/// The overridden value of a prefab modification: `      value: <value>`.
pub const OVERRIDE_VALUE_PATTERN: &'static str = r"^      value: (.+)$";

/// The key of a localized string: `    key: <key>`.
pub const LOC_KEY_PATTERN: &'static str = r"^    key: (.*)$";

/// A GUID anywhere in a line: 32 lowercase hex digits between word boundaries.
pub const GUID_PATTERN: &'static str = r"\b([0-9a-f]{32})\b";

/// The GUID line of a `.meta` file: `guid: <32 hex digits>`.
pub const META_GUID_PATTERN: &'static str = r"^guid: ([0-9a-f]{32})$";

/// What the first capture group of `pattern` is on its leftmost match in `text`, as the `regex`
/// crate finds it (none when the pattern does not compile or does not match).
pub uninterp spec fn regex_first_capture(pattern: Seq<char>, text: Seq<char>) -> Option<Seq<char>>;

/// The text of an optional capture.
pub open spec fn captured(r: Option<String>) -> Option<Seq<char>> {
    match r {
        Some(s) => Some(s@),
        None => None,
    }
}

/// The rest of `text` after `prefix`, when `text` starts with it.
pub open spec fn after_prefix(text: Seq<char>, prefix: Seq<char>) -> Option<Seq<char>> {
    if prefix.len() <= text.len() && text.take(prefix.len() as int) == prefix {
        Some(text.skip(prefix.len() as int))
    } else {
        None
    }
}

/// Whether `s` holds no line break (what `.` in a pattern matches).
pub open spec fn no_newline(s: Seq<char>) -> bool {
    forall|i: int| 0 <= i < s.len() ==> s[i] != '\n'
}

/// A line matched by `^<prefix>(.*)$` gives everything after the prefix.
pub open spec fn rest_after(text: Seq<char>, prefix: Seq<char>, nonempty: bool) -> Option<
    Seq<char>,
> {
    match after_prefix(text, prefix) {
        Some(rest) => if no_newline(rest) && (!nonempty || rest.len() > 0) {
            Some(rest)
        } else {
            None
        },
        None => None,
    }
}

/// Whether `s` is made of ASCII decimal digits only.
pub open spec fn ascii_digits(s: Seq<char>) -> bool {
    forall|i: int| 0 <= i < s.len() ==> '0' <= #[trigger] s[i] <= '9'
}

/// Whether every ASCII character of `s` is a decimal digit (what `\d` matches among ASCII).
pub open spec fn ascii_chars_are_digits(s: Seq<char>) -> bool {
    forall|i: int| 0 <= i < s.len() && (s[i] as u32) < 128 ==> '0' <= #[trigger] s[i] <= '9'
}

/// Whether `c` is an ASCII character that is not a word character (a letter, a digit or `_`).
pub open spec fn ascii_non_word(c: char) -> bool {
    c <= '\x7f' && !('a' <= c <= 'z' || 'A' <= c <= 'Z' || '0' <= c <= '9' || c == '_')
}

/// Whether 32 lowercase hexadecimal digits stand in `s` from position `i` on, with the start or
/// the end of `s`, or an ASCII character that is not a word character, on either side.
pub open spec fn guid_at(s: Seq<char>, i: int) -> bool {
    &&& 0 <= i && i + 32 <= s.len()
    &&& lower_hex32(s.subrange(i, i + 32))
    &&& (i == 0 || ascii_non_word(s[i - 1]))
    &&& (i + 32 == s.len() || ascii_non_word(s[i + 32]))
}

/// Whether `s` is 32 lowercase hexadecimal digits.
pub open spec fn lower_hex32(s: Seq<char>) -> bool {
    s.len() == 32 && forall|i: int|
        0 <= i < 32 ==> ('0' <= #[trigger] s[i] <= '9' || 'a' <= s[i] <= 'f')
}

/// The first capture group of `pattern` on its leftmost match in `text`, found with the `regex`
/// crate. For the patterns above, what the match gives is stated where a few lines can state it;
/// for the MonoBehaviour header, whose `\d` also matches non-ASCII decimal digits, the capture
/// runs to the end of the line and each of its ASCII characters is a digit; for the GUID
/// pattern, whose word boundaries are Unicode-aware, a capture is 32 lowercase hex digits of the
/// text, and one is found wherever such digits stand between ASCII non-word characters or the
/// ends of the text.
#[verifier::external_body]
pub fn first_capture(pattern: &str, text: &str) -> (r: Option<String>)
    ensures
        captured(r) == regex_first_capture(pattern@, text@),
        pattern@ == LIST_ITEM_PATTERN@ ==> captured(r) == rest_after(
            text@,
            "  - "@,
            false,
        ),
        pattern@ == OVERRIDE_VALUE_PATTERN@ ==> captured(r) == rest_after(text@, "      value: "@, true),
        pattern@ == LOC_KEY_PATTERN@ ==> captured(r) == rest_after(
            text@,
            "    key: "@,
            false,
        ),
        pattern@ == META_GUID_PATTERN@ ==> captured(r) == (match after_prefix(
            text@,
            "guid: "@,
        ) {
            Some(rest) => if lower_hex32(rest) {
                Some(rest)
            } else {
                None
            },
            None => None,
        }),
        pattern@ == BEHAVIOUR_HEADER_PATTERN@ ==> match captured(r) {
            Some(id) => id.len() > 0 && text@ == "--- !u!114 &"@ + id && ascii_chars_are_digits(id),
            None => forall|id: Seq<char>|
                id.len() > 0 && ascii_digits(id) ==> text@ != "--- !u!114 &"@ + id,
        },
        pattern@ == GUID_PATTERN@ ==> match captured(r) {
            Some(g) => lower_hex32(g) && exists|i: int|
                0 <= i && i + 32 <= text@.len() && #[trigger] text@.subrange(i, i + 32) == g,
            None => forall|i: int| !#[trigger] guid_at(text@, i),
        },
{
    match regex::Regex::new(pattern) {
        Ok(re) => re.captures(text).and_then(|c| c.get(1)).map(|m| m.as_str().to_string()),
        Err(_) => None,
    }
}

} // verus!
