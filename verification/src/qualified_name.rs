//! C# qualified names (`alias::Ns.Inner.Type<T>`), as parsed from source text.

pub mod borrowed;
pub mod full;
pub mod owned;
pub mod partial;
pub mod search;

pub use borrowed::{NamePartRef, QualifiedNameRef};
pub use full::FullyQualifiedName;
pub use owned::{NamePart, QualifiedNameOwned};
pub use partial::PartiallyQualifiedName;
pub use search::QualifiedNameSearchTree;

use crate::text::{chars_of, first_index, split_spec, str_equal};
use vstd::prelude::*;

verus! {

/// Failures when building qualified names.
#[derive(Debug)]
pub enum NameError {
    /// A syntax node of a kind that is no name.
    BadKind(String),
    /// A generic name with an unexpected part.
    BadGeneric(String),
    /// A qualified name without its two halves.
    BadQualified(String),
    /// A trailing name that carries an alias.
    BadAlias(String),
    /// Source text that is not UTF-8.
    Utf8,
    /// A name nested deeper than its syntax tree has nodes, which only a malformed tree has.
    TooDeep,
}

/// The abstract content of a failure to build a name.
pub enum NameErrorView {
    BadKind(Seq<char>),
    BadGeneric(Seq<char>),
    BadQualified(Seq<char>),
    BadAlias(Seq<char>),
    Utf8,
    TooDeep,
}

impl View for NameError {
    type V = NameErrorView;

    open spec fn view(&self) -> NameErrorView {
        match self {
            NameError::BadKind(s) => NameErrorView::BadKind(s@),
            NameError::BadGeneric(s) => NameErrorView::BadGeneric(s@),
            NameError::BadQualified(s) => NameErrorView::BadQualified(s@),
            NameError::BadAlias(s) => NameErrorView::BadAlias(s@),
            NameError::Utf8 => NameErrorView::Utf8,
            NameError::TooDeep => NameErrorView::TooDeep,
        }
    }
}

/// The message shown for a failure to build a name.
pub open spec fn name_error_text(e: NameErrorView) -> Seq<char> {
    match e {
        NameErrorView::BadKind(k) => "Bad kind: "@ + k,
        NameErrorView::Utf8 => "Bad UTF8 text"@,
        NameErrorView::BadGeneric(s) => "Failed to parse generic type name '"@ + s + "'"@,
        NameErrorView::BadQualified(s) => "Failed to parse qualified type name '"@ + s + "'"@,
        NameErrorView::BadAlias(s) => "Failed to handle name alias '"@ + s + "'"@,
        NameErrorView::TooDeep => "Name nested too deeply"@,
    }
}

impl NameError {
    /// The message shown for this failure (see `name_error_text`).
    pub fn message(&self) -> (s: String)
        ensures
            s@ == name_error_text(self@),
    {
        let (head, body, tail) = match self {
            NameError::BadKind(k) => ("Bad kind: ", k.as_str(), ""),
            NameError::Utf8 => ("Bad UTF8 text", "", ""),
            NameError::BadGeneric(s) => ("Failed to parse generic type name '", s.as_str(), "'"),
            NameError::BadQualified(s) => ("Failed to parse qualified type name '", s.as_str(), "'"),
            NameError::BadAlias(s) => ("Failed to handle name alias '", s.as_str(), "'"),
            NameError::TooDeep => ("Name nested too deeply", "", ""),
        };
        let mut r = String::from_str(head);
        r.append(body);
        r.append(tail);
        proof {
            reveal_strlit("");
            assert(r@ =~= name_error_text(self@));
        }
        r
    }
}

/// The abstract content of one part of a qualified name: its identifier and the number of
/// generic arguments it takes.
pub struct PartView {
    pub name: Seq<char>,
    pub generics: nat,
}

/// The abstract content of a qualified name: an optional namespace alias and its parts in order.
pub struct NameView {
    pub alias: Option<Seq<char>>,
    pub parts: Seq<PartView>,
}

/// Scanning state of the generic-argument counter after reading `s`: (arguments counted,
/// angle-bracket depth).
pub open spec fn generic_scan(s: Seq<char>) -> (nat, nat)
    decreases s.len(),
{
    if s.len() == 0 {
        (0, 0)
    } else {
        let (count, depth) = generic_scan(s.drop_last());
        let c = s.last();
        if c == '<' {
            (if depth == 0 { count + 1 } else { count }, depth + 1)
        } else if c == '>' && depth > 0 {
            (count, (depth - 1) as nat)
        } else if c == ',' && depth == 1 {
            (count + 1, depth)
        } else {
            (count, depth)
        }
    }
}

/// Number of generic arguments of the outermost argument list in `s`.
pub open spec fn generic_count(s: Seq<char>) -> nat {
    generic_scan(s).0
}

/// The counters never exceed the length of the text read.
pub proof fn lemma_generic_scan_bound(s: Seq<char>)
    ensures
        generic_scan(s).0 <= s.len(),
        generic_scan(s).1 <= s.len(),
    decreases s.len(),
{
    if s.len() > 0 {
        lemma_generic_scan_bound(s.drop_last());
    }
}

/// A name part parsed from text such as `Dictionary<K,V>`: the identifier before the first `<`,
/// and the generic argument count of the rest.
pub open spec fn part_view_of(s: Seq<char>) -> PartView {
    match first_index(s, '<') {
        Some(i) => PartView { name: s.take(i), generics: generic_count(s.skip(i)) },
        None => PartView { name: s, generics: 0 },
    }
}

/// The parts of a dotted name, each parsed with `part_view_of`.
pub open spec fn parts_view_of(s: Seq<char>) -> Seq<PartView> {
    split_spec(s, '.').map_values(|p: Seq<char>| part_view_of(p))
}

/// The position of the first `::` in `s`.
pub open spec fn first_double_colon(s: Seq<char>) -> Option<int>
    decreases s.len(),
{
    if s.len() < 2 {
        None
    } else {
        match first_double_colon(s.drop_last()) {
            Some(i) => Some(i),
            None => if s[s.len() - 2] == ':' && s[s.len() - 1] == ':' {
                Some(s.len() - 2)
            } else {
                None
            },
        }
    }
}

/// Whether `char::is_alphanumeric` holds of `c`.
pub uninterp spec fn char_alphanumeric(c: char) -> bool;

/// Whether `c` is alphanumeric, as `char::is_alphanumeric` decides: among ASCII characters
/// exactly the letters and digits; beyond ASCII, the Unicode `Alphabetic` and `Numeric`
/// characters (see `char_alphanumeric`).
pub open spec fn alphanumeric(c: char) -> bool {
    if c <= '\x7f' {
        'a' <= c <= 'z' || 'A' <= c <= 'Z' || '0' <= c <= '9'
    } else {
        char_alphanumeric(c)
    }
}

/// Whether every character of `s` is alphanumeric.
pub open spec fn all_alphanumeric(s: Seq<char>) -> bool {
    forall|i: int| 0 <= i < s.len() ==> alphanumeric(#[trigger] s[i])
}

/// A qualified name parsed from text: text before the first `::` is the alias if it is made of
/// alphanumeric characters only; the rest is split on `.` into parts.
pub open spec fn name_view_of(s: Seq<char>) -> NameView {
    match first_double_colon(s) {
        Some(i) => if all_alphanumeric(s.take(i)) {
            NameView { alias: Some(s.take(i)), parts: parts_view_of(s.skip(i + 2)) }
        } else {
            NameView { alias: None, parts: parts_view_of(s) }
        },
        None => NameView { alias: None, parts: parts_view_of(s) },
    }
}

/// The name `global::`, with no parts.
pub open spec fn global_view() -> NameView {
    NameView { alias: Some("global"@), parts: Seq::empty() }
}

/// Whether a name is the bare `global::` alias.
pub open spec fn is_global_view(v: NameView) -> bool {
    v.alias == Some("global"@) && v.parts.len() == 0
}

/// Whether `v` ends with `other`: with an alias on `other`, both must carry that alias and the
/// same parts; without one, the parts of `other` must be the last parts of `v`.
pub open spec fn ends_with_view(v: NameView, other: NameView) -> bool {
    match other.alias {
        Some(oa) => v.alias == Some(oa) && v.parts == other.parts,
        None => other.parts.len() <= v.parts.len() && v.parts.skip(
            v.parts.len() - other.parts.len(),
        ) == other.parts,
    }
}

/// `v` with the trailing `other` removed, when `v` ends with it.
pub open spec fn trim_end_view(v: NameView, other: NameView) -> NameView {
    if ends_with_view(v, other) {
        NameView { alias: v.alias, parts: v.parts.take(v.parts.len() - other.parts.len()) }
    } else {
        v
    }
}

/// `v` with its alias replaced by `namespace`, when it has one.
pub open spec fn resolve_alias_view(v: NameView, namespace: NameView) -> NameView {
    if v.alias is Some {
        NameView { alias: namespace.alias, parts: namespace.parts + v.parts }
    } else {
        v
    }
}

/// The name that joining `start` and `end` gives, as `concat` joins them.
pub open spec fn joined(start: NameView, end: NameView) -> NameView {
    NameView { alias: start.alias, parts: start.parts + end.parts }
}

/// A joined name ends with its trailing name, and trimming that name off gives back the
/// leading one; splitting it after the leading name's parts gives back both.
pub proof fn law_trim_undoes_concat(start: NameView, end: NameView)
    requires
        end.alias is None,
    ensures
        ends_with_view(joined(start, end), end),
        trim_end_view(joined(start, end), end) == start,
        joined(start, end).parts.take(start.parts.len() as int) == start.parts,
        joined(start, end).parts.skip(start.parts.len() as int) == end.parts,
{
    let j = joined(start, end);
    assert(j.parts.skip(j.parts.len() - end.parts.len()) =~= end.parts);
    assert(j.parts.take(j.parts.len() - end.parts.len()) =~= start.parts);
    assert(j.parts.skip(start.parts.len() as int) =~= end.parts);
}

/// Equality of names as the `==` of the names compares them: aliases are compared only when
/// both names carry one; the parts must be equal.
pub open spec fn names_match(v: NameView, other: NameView) -> bool {
    (v.alias is Some && other.alias is Some ==> v.alias == other.alias) && v.parts == other.parts
}

/// The operations shared by the owned and the borrowed form of a name part.
pub trait QualifiedNamePart: Sized {
    /// The abstract content of the part.
    spec fn part_view(&self) -> PartView;

    /// The identifier.
    fn name(&self) -> (s: &str)
        ensures
            s@ == self.part_view().name,
    ;

    /// The number of generic arguments.
    fn generics(&self) -> (g: usize)
        ensures
            g == self.part_view().generics,
    ;
}

/// The operations shared by the owned and the borrowed form of a qualified name.
pub trait QualifiedName: Sized {
    /// The abstract content of the name.
    spec fn name_view(&self) -> NameView;

    /// The name `global::`.
    fn global() -> (r: Self)
        ensures
            r.name_view() == global_view(),
    ;

    /// The number of parts.
    fn len(&self) -> (n: usize)
        ensures
            n == self.name_view().parts.len(),
    ;

    /// The identifier of the part at `index`.
    fn part_name(&self, index: usize) -> (s: &str)
        requires
            index < self.name_view().parts.len(),
        ensures
            s@ == self.name_view().parts[index as int].name,
    ;

    /// The generic argument count of the part at `index`.
    fn part_generics(&self, index: usize) -> (g: usize)
        requires
            index < self.name_view().parts.len(),
        ensures
            g == self.name_view().parts[index as int].generics,
    ;

    /// The namespace alias, if any.
    fn alias_name(&self) -> (a: Option<&str>)
        ensures
            match a {
                Some(s) => self.name_view().alias == Some(s@),
                None => self.name_view().alias is None,
            },
    ;

    /// Splits the name in two at `index`: the parts before it stay here, the rest are returned
    /// as a name without alias.
    fn split_off(&mut self, index: usize) -> (tail: Self)
        requires
            index <= old(self).name_view().parts.len(),
        ensures
            final(self).name_view() == (NameView {
                alias: old(self).name_view().alias,
                parts: old(self).name_view().parts.take(index as int),
            }),
            tail.name_view() == (NameView {
                alias: None,
                parts: old(self).name_view().parts.skip(index as int),
            }),
    ;

    /// The two halves `split_off` would give, leaving this name as it is.
    fn split(&self, index: usize) -> (r: (Self, Self))
        requires
            index <= self.name_view().parts.len(),
        ensures
            r.0.name_view() == (NameView {
                alias: self.name_view().alias,
                parts: self.name_view().parts.take(index as int),
            }),
            r.1.name_view() == (NameView {
                alias: None,
                parts: self.name_view().parts.skip(index as int),
            }),
    ;

    /// Replaces the alias of an aliased name by the namespace it stands for.
    fn resolve_alias(&mut self, namespace: Self)
        ensures
            final(self).name_view() == resolve_alias_view(
                old(self).name_view(),
                namespace.name_view(),
            ),
    ;

    /// Whether the name is the bare `global::` alias.
    fn is_global(&self) -> (b: bool)
        ensures
            b == is_global_view(self.name_view()),
    {
        match self.alias_name() {
            Some(a) => {
                proof {
                    reveal_strlit("global");
                }
                str_equal(a, "global") && self.len() == 0
            },
            None => false,
        }
    }
}

/// Whether the parts of `name` from `start` on are the parts of `other`.
pub fn parts_equal_from<A: QualifiedName, B: QualifiedName>(name: &A, start: usize, other: &B) -> (b: bool)
    requires
        start + other.name_view().parts.len() == name.name_view().parts.len(),
    ensures
        b == (name.name_view().parts.skip(start as int) == other.name_view().parts),
{
    let n = other.len();
    let total = name.len();
    let mut i: usize = 0;
    while i < n
        invariant
            n == other.name_view().parts.len(),
            total == name.name_view().parts.len(),
            start + n == name.name_view().parts.len(),
            i <= n,
            forall|j: int|
                0 <= j < i ==> name.name_view().parts[start + j] == other.name_view().parts[j],
        decreases n - i,
    {
        let same = str_equal(name.part_name(start + i), other.part_name(i))
            && name.part_generics(start + i) == other.part_generics(i);
        if !same {
            assert(name.name_view().parts.skip(start as int)[i as int]
                != other.name_view().parts[i as int]);
            return false;
        }
        i = i + 1;
    }
    assert(name.name_view().parts.skip(start as int) =~= other.name_view().parts);
    true
}

/// Whether `name` ends with `other` (see `ends_with_view`).
pub fn ends_with<A: QualifiedName, B: QualifiedName>(name: &A, other: &B) -> (b: bool)
    ensures
        b == ends_with_view(name.name_view(), other.name_view()),
{
    match other.alias_name() {
        Some(oa) => match name.alias_name() {
            Some(sa) => {
                if !str_equal(sa, oa) || name.len() != other.len() {
                    return false;
                }
                let r = parts_equal_from(name, 0, other);
                assert(name.name_view().parts.skip(0) =~= name.name_view().parts);
                r
            },
            None => false,
        },
        None => {
            if name.len() >= other.len() {
                parts_equal_from(name, name.len() - other.len(), other)
            } else {
                false
            }
        },
    }
}

/// Removes `other` from the end of `name`, when the name ends with it.
pub fn trim_end<A: QualifiedName, B: QualifiedName>(name: &mut A, other: &B)
    ensures
        final(name).name_view() == trim_end_view(old(name).name_view(), other.name_view()),
{
    if ends_with(name, other) {
        let index = name.len() - other.len();
        let _ = name.split_off(index);
    }
}

/// Equality as the names' `==` decides it (see `names_match`).
pub fn names_equal<A: QualifiedName, B: QualifiedName>(name: &A, other: &B) -> (b: bool)
    ensures
        b == names_match(name.name_view(), other.name_view()),
{
    match (name.alias_name(), other.alias_name()) {
        (Some(a), Some(o)) => {
            if !str_equal(a, o) {
                return false;
            }
        },
        _ => {},
    }
    if name.len() != other.len() {
        return false;
    }
    let r = parts_equal_from(name, 0, other);
    assert(name.name_view().parts.skip(0) =~= name.name_view().parts);
    r
}

/// The suffix shown for a part with `g` generic arguments (`<T>`, `<T,U>`, ...).
pub open spec fn generic_suffix(g: nat) -> Seq<char> {
    if g == 1 {
        "<T>"@
    } else if g == 2 {
        "<T,U>"@
    } else if g == 3 {
        "<T,U,V>"@
    } else if g == 4 {
        "<T,U,V,W>"@
    } else if g == 5 {
        "<T,U,V,W,X>"@
    } else if g == 6 {
        "<T,U,V,W,X,Y>"@
    } else if g == 7 {
        "<T,U,V,W,X,Y,Z>"@
    } else {
        Seq::empty()
    }
}

/// The text shown for a part: its identifier and generic suffix.
pub open spec fn part_text(p: PartView) -> Seq<char> {
    p.name + generic_suffix(p.generics)
}

/// The text shown for parts: each part's text, joined by `.`.
pub open spec fn parts_text(ps: Seq<PartView>) -> Seq<char>
    decreases ps.len(),
{
    if ps.len() == 0 {
        Seq::empty()
    } else if ps.len() == 1 {
        part_text(ps[0])
    } else {
        parts_text(ps.drop_last()) + "."@ + part_text(ps.last())
    }
}

/// The text shown for a name: `alias::` if aliased, then its parts.
pub open spec fn name_text(v: NameView) -> Seq<char> {
    match v.alias {
        Some(a) => a + "::"@ + parts_text(v.parts),
        None => parts_text(v.parts),
    }
}

/// A name can be shown when no part has more than seven generic arguments.
pub open spec fn names_displayable(v: NameView) -> bool {
    forall|i: int| 0 <= i < v.parts.len() ==> #[trigger] v.parts[i].generics <= 7
}

/// The generic suffix for `g` arguments (see `generic_suffix`).
fn generic_suffix_text(g: usize) -> (s: &'static str)
    requires
        g <= 7,
    ensures
        s@ == generic_suffix(g as nat),
{
    if g == 0 {
        proof {
            reveal_strlit("");
        }
        ""
    } else if g == 1 {
        "<T>"
    } else if g == 2 {
        "<T,U>"
    } else if g == 3 {
        "<T,U,V>"
    } else if g == 4 {
        "<T,U,V,W>"
    } else if g == 5 {
        "<T,U,V,W,X>"
    } else if g == 6 {
        "<T,U,V,W,X,Y>"
    } else {
        "<T,U,V,W,X,Y,Z>"
    }
}

/// The text shown for `name` (see `name_text`).
pub fn name_to_text<Q: QualifiedName>(name: &Q) -> (s: String)
    requires
        names_displayable(name.name_view()),
    ensures
        s@ == name_text(name.name_view()),
{
    let ghost v = name.name_view();
    let mut s = match name.alias_name() {
        Some(a) => {
            let mut t = String::from_str(a);
            t.append("::");
            t
        },
        None => String::new(),
    };
    let ghost start = s@;
    let n = name.len();
    let mut i: usize = 0;
    assert(v.parts.take(0) =~= Seq::<PartView>::empty());
    assert(start =~= start + parts_text(v.parts.take(0)));
    while i < n
        invariant
            n == v.parts.len(),
            v == name.name_view(),
            names_displayable(v),
            i <= n,
            s@ == start + parts_text(v.parts.take(i as int)),
        decreases n - i,
    {
        let ghost before = s@;
        assert(v.parts.take(i + 1).drop_last() =~= v.parts.take(i as int));
        assert(v.parts.take(i + 1).last() == v.parts[i as int]);
        if i > 0 {
            s.append(".");
        }
        s.append(name.part_name(i));
        let g = name.part_generics(i);
        assert(v.parts[i as int].generics <= 7);
        s.append(generic_suffix_text(g));
        proof {
            if i == 0 {
                assert(v.parts.take(1) =~= seq![v.parts[0]]);
                assert(s@ =~= start + parts_text(v.parts.take(1)));
            } else {
                assert(s@ =~= start + parts_text(v.parts.take(i + 1)));
            }
        }
        i = i + 1;
    }
    assert(v.parts.take(n as int) =~= v.parts);
    s
}

/// Whether `char::is_alphanumeric` holds of `c`.
#[verifier::external_body]
pub(crate) fn is_alphanumeric(c: char) -> (r: bool)
    ensures
        r == char_alphanumeric(c),
        ('a' <= c <= 'z' || 'A' <= c <= 'Z' || '0' <= c <= '9') ==> r,
        c < '\u{80}' && !('a' <= c <= 'z' || 'A' <= c <= 'Z' || '0' <= c <= '9') ==> !r,
{
    c.is_alphanumeric()
}

/// Counts the generic arguments of the outermost argument list in `cs[from..to]`.
pub fn generic_args_count_in(cs: &Vec<char>, from: usize, to: usize) -> (n: usize)
    requires
        from <= to <= cs@.len(),
    ensures
        n == generic_count(cs@.subrange(from as int, to as int)),
{
    let mut count: usize = 0;
    let mut depth: usize = 0;
    let mut i: usize = from;
    while i < to
        invariant
            from <= i <= to <= cs@.len(),
            (count as nat, depth as nat) == generic_scan(cs@.subrange(from as int, i as int)),
        decreases to - i,
    {
        proof {
            lemma_generic_scan_bound(cs@.subrange(from as int, i as int));
            assert(cs@.subrange(from as int, i + 1).drop_last() =~= cs@.subrange(
                from as int,
                i as int,
            ));
        }
        let c = cs[i];
        if c == '<' {
            depth = depth + 1;
            if depth == 1 {
                count = count + 1;
            }
        } else if c == '>' && depth > 0 {
            depth = depth - 1;
        } else if c == ',' && depth == 1 {
            count = count + 1;
        }
        i = i + 1;
    }
    count
}

/// Counts the generic arguments of the outermost argument list in `text`, e.g. 2 for
/// `Test<T,U>` and 1 for `Test<T<U,V>>`.
pub fn generic_args_count_from_str(text: &str) -> (n: usize)
    ensures
        n == generic_count(text@),
{
    let cs = chars_of(text);
    let n = generic_args_count_in(&cs, 0, cs.len());
    assert(cs@.subrange(0, cs@.len() as int) =~= cs@);
    n
}

} // verus!
