//! Filters that select assets by a regular expression over their identifier or path.

use crate::text::str_starts_with;
use vstd::prelude::*;
use vstd::string::*;

verus! {

#[verifier::external_type_specification]
#[verifier::external_body]
pub struct ExRegexError(regex::Error);

/// Whether `pattern` builds, with `regex::RegexBuilder` and Unicode support turned off, into a
/// regular expression.
pub uninterp spec fn ascii_regex_builds(pattern: Seq<char>) -> bool;

/// Whether the regular expression that `pattern` builds into (Unicode support turned off)
/// matches somewhere in `text`, as `regex::Regex::is_match` decides.
pub uninterp spec fn ascii_regex_matches(pattern: Seq<char>, text: Seq<char>) -> bool;

#[verifier::external_type_specification]
#[verifier::external_body]
pub struct ExRegex(regex::Regex);

/// A regular expression built with Unicode support turned off, with the pattern it was built
/// from.
pub struct AsciiRegex {
    regex: regex::Regex,
    pattern: String,
}

impl View for AsciiRegex {
    type V = Seq<char>;

    closed spec fn view(&self) -> Seq<char> {
        self.pattern@
    }
}

/// Builds `pattern` with `regex::RegexBuilder`, Unicode support turned off: a regular expression
/// that keeps the pattern exactly where `ascii_regex_builds` says it builds, and the crate's error
/// elsewhere.
#[verifier::external_body]
fn build_ascii_regex(pattern: &str) -> (r: Result<AsciiRegex, regex::Error>)
    ensures
        r is Ok == ascii_regex_builds(pattern@),
        r matches Ok(re) ==> re@ == pattern@,
{
    match regex::RegexBuilder::new(pattern).unicode(false).build() {
        Ok(regex) => Ok(AsciiRegex { regex, pattern: pattern.to_string() }),
        Err(e) => Err(e),
    }
}

/// `regex::Regex::is_match`: whether the regular expression matches somewhere in `text`.
#[verifier::external_body]
fn ascii_regex_is_match(re: &AsciiRegex, text: &str) -> (b: bool)
    ensures
        b == ascii_regex_matches(re@, text@),
{
    re.regex.is_match(text)
}

/// `Clone::clone` of the regular expression and of its pattern.
#[verifier::external_body]
fn clone_regex(re: &AsciiRegex) -> (r: AsciiRegex)
    ensures
        r@ == re@,
{
    AsciiRegex { regex: re.regex.clone(), pattern: re.pattern.clone() }
}

/// The pattern of `re`.
fn regex_pattern(re: &AsciiRegex) -> (s: &str)
    ensures
        s@ == re@,
{
    re.pattern.as_str()
}

/// Whether a filter written as `value` selects the assets that do not match (a leading `~`).
pub open spec fn filter_inverted(value: Seq<char>) -> bool {
    value.len() > 0 && value[0] == '~'
}

/// The pattern of a filter written as `value`: all of it but a leading `~`.
pub open spec fn filter_pattern(value: Seq<char>) -> Seq<char> {
    if filter_inverted(value) {
        value.skip(1)
    } else {
        value
    }
}

/// A regular expression over asset identifiers or paths, possibly inverted.
pub struct AssetFilter {
    regex: AsciiRegex,
    invert: bool,
}

impl Clone for AssetFilter {
    fn clone(&self) -> (r: Self)
        ensures
            r.source() == self.source(),
            r.inverted() == self.inverted(),
    {
        AssetFilter { regex: clone_regex(&self.regex), invert: self.invert }
    }
}

impl AssetFilter {
    /// The pattern of the regular expression, which builds (see `ascii_regex_builds`).
    pub closed spec fn source(&self) -> Seq<char> {
        self.regex@
    }

    /// Whether the filter selects what does not match.
    pub closed spec fn inverted(&self) -> bool {
        self.invert
    }

    /// A filter for `pattern`; fails with the regular expression's error where it does not build.
    pub fn new(pattern: &str, invert: bool) -> (r: Result<AssetFilter, regex::Error>)
        ensures
            r is Ok <==> ascii_regex_builds(pattern@),
            r matches Ok(f) ==> f.source() == pattern@ && f.inverted() == invert,
    {
        match build_ascii_regex(pattern) {
            Ok(regex) => Ok(AssetFilter { regex, invert }),
            Err(e) => Err(e),
        }
    }

    /// The filter written as `value`: a regular expression, inverted when it starts with `~`.
    pub fn try_from(value: &str) -> (r: Result<AssetFilter, regex::Error>)
        ensures
            r is Ok <==> ascii_regex_builds(filter_pattern(value@)),
            r matches Ok(f) ==> f.source() == filter_pattern(value@) && f.inverted()
                == filter_inverted(value@),
    {
        proof {
            reveal_strlit("~");
        }
        let inverted = str_starts_with(value, "~");
        if inverted {
            let n = value.unicode_len();
            let rest = value.substring_char(1, n);
            proof {
                assert(value@.take(1)[0] == '~');
                assert(value@.subrange(1, n as int) =~= value@.skip(1));
            }
            AssetFilter::new(rest, true)
        } else {
            proof {
                if value@.len() > 0 && value@[0] == '~' {
                    assert(value@.take(1) =~= "~"@);
                }
            }
            AssetFilter::new(value, false)
        }
    }

    /// Whether `a` is selected: it matches the regular expression, or does not when the filter is
    /// inverted.
    pub fn matches(&self, a: &str) -> (b: bool)
        ensures
            b == (self.inverted() != ascii_regex_matches(self.source(), a@)),
    {
        let m = ascii_regex_is_match(&self.regex, a);
        self.invert != m
    }

    /// The text of the filter: `~` before the pattern when it is inverted.
    pub fn label(&self) -> (s: String)
        ensures
            s@ == if self.inverted() {
                "~"@ + self.source()
            } else {
                self.source()
            },
    {
        if self.invert {
            let mut s = String::from_str("~");
            s.append(regex_pattern(&self.regex));
            s
        } else {
            String::from_str(regex_pattern(&self.regex))
        }
    }
}

/// A filter written with a leading `~` has the same pattern as the filter written without it,
/// and selects exactly what that one does not.
pub proof fn law_tilde_inverts(value: Seq<char>, text: Seq<char>)
    requires
        !filter_inverted(value),
    ensures
        filter_pattern(seq!['~'] + value) == filter_pattern(value),
        filter_inverted(seq!['~'] + value),
        (filter_inverted(seq!['~'] + value) != ascii_regex_matches(
            filter_pattern(seq!['~'] + value),
            text,
        )) == !(filter_inverted(value) != ascii_regex_matches(filter_pattern(value), text)),
{
    assert((seq!['~'] + value)[0] == '~');
    assert((seq!['~'] + value).skip(1) =~= value);
}

} // verus!
