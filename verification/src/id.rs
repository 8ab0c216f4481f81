//! Identifiers of assets: Unity GUIDs, localization keys and C# type names.

use crate::qualified_name::{NameView, QualifiedName, QualifiedNameOwned};
use crate::qualified_name::{name_text, names_displayable};
use crate::text::str_equal;
use vstd::prelude::*;
use vstd::string::*;

verus! {

/// The identifier of an asset.
#[derive(Debug, Hash)]
pub enum Id {
    Empty,
    Guid(u128),
    Loc(String),
    CsType(QualifiedNameOwned),
}

/// The abstract content of an identifier.
pub enum IdView {
    Empty,
    Guid(u128),
    Loc(Seq<char>),
    CsType(NameView),
}

impl View for Id {
    type V = IdView;

    open spec fn view(&self) -> IdView {
        match self {
            Id::Empty => IdView::Empty,
            Id::Guid(g) => IdView::Guid(*g),
            Id::Loc(s) => IdView::Loc(s@),
            Id::CsType(n) => IdView::CsType(n@),
        }
    }
}

impl Clone for Id {
    fn clone(&self) -> (r: Self)
        ensures
            r@ == self@,
    {
        match self {
            Id::Empty => Id::Empty,
            Id::Guid(g) => Id::Guid(*g),
            Id::Loc(s) => Id::Loc(s.clone()),
            Id::CsType(n) => Id::CsType(n.clone()),
        }
    }
}

impl Id {
    /// The default identifier: the nil GUID.
    pub fn default_id() -> (r: Id)
        ensures
            r@ == IdView::Guid(0),
    {
        Id::Guid(0)
    }

    /// Whether both identifiers are the same.
    pub fn same(&self, other: &Id) -> (b: bool)
        ensures
            b == (self@ == other@),
    {
        match (self, other) {
            (Id::Empty, Id::Empty) => true,
            (Id::Guid(a), Id::Guid(b)) => *a == *b,
            (Id::Loc(a), Id::Loc(b)) => str_equal(a.as_str(), b.as_str()),
            (Id::CsType(a), Id::CsType(b)) => a.same(b),
            _ => false,
        }
    }

    /// Whether the text of this identifier can be formed: no part of a type name takes more
    /// than seven generic arguments.
    pub fn is_displayable(&self) -> (b: bool)
        ensures
            b == id_displayable(self@),
    {
        match self {
            Id::CsType(name) => {
                let mut i: usize = 0;
                while i < name.parts.len()
                    invariant
                        i <= name.parts@.len(),
                        self@ == IdView::CsType(name@),
                        forall|j: int| 0 <= j < i ==> #[trigger] name@.parts[j].generics <= 7,
                    decreases name.parts@.len() - i,
                {
                    if name.parts[i].generics > 7 {
                        assert(name@.parts[i as int].generics > 7);
                        return false;
                    }
                    i = i + 1;
                }
                true
            },
            _ => true,
        }
    }

    /// The text shown for this identifier.
    pub fn to_text(&self) -> (s: String)
        requires
            id_displayable(self@),
        ensures
            s@ == id_text(self@),
    {
        match self {
            Id::Empty => String::from_str("none"),
            Id::Guid(g) => {
                let mut s = String::from_str("guid:");
                let t = uuid_text(*g);
                s.append(t.as_str());
                s
            },
            Id::Loc(name) => {
                let mut s = String::from_str("loc:");
                s.append(name.as_str());
                s
            },
            Id::CsType(name) => {
                let mut s = String::from_str("cs_decl:");
                let t = name.to_text();
                s.append(t.as_str());
                s
            },
        }
    }
}

/// The lowercase hexadecimal digit for `n` (below 16).
pub open spec fn hex_digit(n: nat) -> char {
    if n < 10 {
        ((n + 48) as u8) as char
    } else {
        ((n + 87) as u8) as char
    }
}

/// The last `k` hexadecimal digits of `v`, most significant first.
pub open spec fn hex_digits(v: nat, k: nat) -> Seq<char>
    decreases k,
{
    if k == 0 {
        Seq::empty()
    } else {
        hex_digits(v / 16, (k - 1) as nat).push(hex_digit(v % 16))
    }
}

/// A 128-bit value in the hyphenated form of a UUID: 32 lowercase hex digits grouped 8-4-4-4-12.
pub open spec fn uuid_hyphenated(v: u128) -> Seq<char> {
    let d = hex_digits(v as nat, 32);
    d.subrange(0, 8) + seq!['-'] + d.subrange(8, 12) + seq!['-'] + d.subrange(12, 16) + seq!['-']
        + d.subrange(16, 20) + seq!['-'] + d.subrange(20, 32)
}

/// The value of a hexadecimal digit, either case.
pub open spec fn hex_value_of(c: char) -> nat {
    if '0' <= c <= '9' {
        (c as nat - 48) as nat
    } else if 'a' <= c <= 'f' {
        (c as nat - 87) as nat
    } else {
        (c as nat - 55) as nat
    }
}

/// Whether `c` is a hexadecimal digit, either case.
pub open spec fn is_hex_char(c: char) -> bool {
    ('0' <= c <= '9') || ('a' <= c <= 'f') || ('A' <= c <= 'F')
}

/// The number written in hexadecimal by `s`.
pub open spec fn hex_value(s: Seq<char>) -> nat
    decreases s.len(),
{
    if s.len() == 0 {
        0
    } else {
        hex_value(s.drop_last()) * 16 + hex_value_of(s.last())
    }
}

/// Whether every character of `d` is a hexadecimal digit.
pub open spec fn all_hex(d: Seq<char>) -> bool {
    forall|i: int| 0 <= i < d.len() ==> is_hex_char(#[trigger] d[i])
}

/// The 32 digits of the hyphenated form `s` (groups of 8, 4, 4, 4 and 12 hex digits joined by
/// hyphens), if `s` has that form.
pub open spec fn hyphenated_digits(s: Seq<char>) -> Option<Seq<char>> {
    if s.len() == 36 && s[8] == '-' && s[13] == '-' && s[18] == '-' && s[23] == '-' {
        let d = s.subrange(0, 8) + s.subrange(9, 13) + s.subrange(14, 18) + s.subrange(19, 23)
            + s.subrange(24, 36);
        if all_hex(d) {
            Some(d)
        } else {
            None
        }
    } else {
        None
    }
}

/// Whether `a` is `b` when ASCII case is ignored, `b` being lowercase.
pub open spec fn same_ignoring_case(a: Seq<char>, b: Seq<char>) -> bool {
    a.len() == b.len() && forall|i: int|
        0 <= i < a.len() ==> (#[trigger] a[i] == b[i] || ('a' <= b[i] <= 'z' && a[i] as u32 + 32
            == b[i] as u32))
}

/// The 32 hex digits of a UUID written as `s`, in the forms `Uuid::parse_str` accepts: the
/// simple form of 32 hex digits, the hyphenated form, the hyphenated form between braces, and
/// the hyphenated form after `urn:uuid:` (in any ASCII case); none otherwise.
pub open spec fn uuid_digits(s: Seq<char>) -> Option<Seq<char>> {
    if s.len() == 32 {
        if all_hex(s) {
            Some(s)
        } else {
            None
        }
    } else if s.len() == 36 {
        hyphenated_digits(s)
    } else if s.len() == 38 && s[0] == '{' && s[37] == '}' {
        hyphenated_digits(s.subrange(1, 37))
    } else if s.len() == 45 && same_ignoring_case(s.take(9), "urn:uuid:"@) {
        hyphenated_digits(s.skip(9))
    } else {
        None
    }
}

/// What `Uuid::parse_str(s)` gives, as a 128-bit value: the digits read most significant first.
pub open spec fn uuid_parse(s: Seq<char>) -> Option<u128> {
    match uuid_digits(s) {
        Some(d) => Some(hex_value(d) as u128),
        None => None,
    }
}

/// Whether the text of an identifier can be formed.
pub open spec fn id_displayable(id: IdView) -> bool {
    id matches IdView::CsType(n) ==> names_displayable(n)
}

/// The text shown for an identifier.
pub open spec fn id_text(id: IdView) -> Seq<char> {
    match id {
        IdView::Empty => "none"@,
        IdView::Guid(g) => "guid:"@ + uuid_hyphenated(g),
        IdView::Loc(s) => "loc:"@ + s,
        IdView::CsType(n) => "cs_decl:"@ + name_text(n),
    }
}

/// Parses a UUID with `uuid::Uuid::parse_str`, giving its 128-bit value (see `uuid_parse`). The
/// crate checks every byte of the text, so any character outside ASCII makes it fail, and on
/// ASCII text characters and bytes coincide.
#[verifier::external_body]
pub fn parse_uuid(s: &str) -> (r: Option<u128>)
    ensures
        r == uuid_parse(s@),
{
    uuid::Uuid::parse_str(s).ok().map(|u| u.as_u128())
}

/// Formats a 128-bit value as `uuid::Uuid` displays it: the hyphenated lowercase form.
#[verifier::external_body]
pub fn uuid_text(v: u128) -> (s: String)
    ensures
        s@ == uuid_hyphenated(v),
{
    uuid::Uuid::from_u128(v).hyphenated().to_string()
}

} // verus!
