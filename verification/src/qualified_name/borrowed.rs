use super::{
    all_alphanumeric, first_double_colon, generic_args_count_in, global_view, is_alphanumeric,
    name_view_of, part_view_of, parts_view_of, resolve_alias_view, NameError, NamePart,
    NameView, PartView, QualifiedName, QualifiedNameOwned, QualifiedNamePart,
};
use crate::text::{chars_of, find_char, first_index, split_spec};
use vstd::prelude::*;
use vstd::string::*;

verus! {

/// One part of a qualified name, borrowing its identifier from the parsed text.
#[derive(Clone, Copy, Debug, PartialEq, Eq, Hash)]
pub struct NamePartRef<'a> {
    pub name: &'a str,
    pub generics: usize,
}

impl<'a> View for NamePartRef<'a> {
    type V = PartView;

    open spec fn view(&self) -> PartView {
        PartView { name: self.name@, generics: self.generics as nat }
    }
}

impl<'a> QualifiedNamePart for NamePartRef<'a> {
    open spec fn part_view(&self) -> PartView {
        self@
    }

    fn name(&self) -> (s: &str) {
        self.name
    }

    fn generics(&self) -> (g: usize) {
        self.generics
    }
}

impl<'a> NamePartRef<'a> {
    /// Parses a part such as `List<T>`: the identifier before the first `<`, and the number of
    /// generic arguments after it.
    pub fn from(value: &'a str) -> (r: Self)
        ensures
            r@ == part_view_of(value@),
    {
        let cs = chars_of(value);
        let r = parse_part_in(value, &cs, 0, cs.len());
        assert(cs@.subrange(0, cs@.len() as int) =~= cs@);
        r
    }

    /// An owned copy of this part.
    pub fn to_owned(&self) -> (r: NamePart)
        ensures
            r@ == self@,
    {
        NamePart { name: String::from_str(self.name), generics: self.generics }
    }

    /// The identifier.
    pub fn name(&self) -> (s: &'a str)
        ensures
            s@ == self@.name,
    {
        self.name
    }

    /// The number of generic arguments.
    pub fn generics(&self) -> (g: usize)
        ensures
            g == self@.generics,
    {
        self.generics
    }
}

/// Parses the part written in `value[from..to]`.
fn parse_part_in<'a>(value: &'a str, cs: &Vec<char>, from: usize, to: usize) -> (r: NamePartRef<
    'a,
>)
    requires
        cs@ == value@,
        from <= to <= cs@.len(),
    ensures
        r@ == part_view_of(cs@.subrange(from as int, to as int)),
{
    let ghost sub = cs@.subrange(from as int, to as int);
    proof {
        crate::text::lemma_first_index(sub, '<');
    }
    match find_char(cs, from, to, '<') {
        Some(k) => {
            let name = value.substring_char(from, k);
            let generics = generic_args_count_in(cs, k, to);
            proof {
                let i = first_index(sub, '<')->0;
                assert(sub.take(i) =~= cs@.subrange(from as int, k as int));
                assert(sub.skip(i) =~= cs@.subrange(k as int, to as int));
            }
            NamePartRef { name, generics }
        },
        None => {
            let name = value.substring_char(from, to);
            NamePartRef { name, generics: 0 }
        },
    }
}

/// Parses the dotted parts written in `value[from..to]`.
fn parse_parts_in<'a>(value: &'a str, cs: &Vec<char>, from: usize, to: usize) -> (r: Vec<
    NamePartRef<'a>,
>)
    requires
        cs@ == value@,
        from <= to <= cs@.len(),
    ensures
        r@.map_values(|p: NamePartRef<'a>| p@) == parts_view_of(cs@.subrange(from as int, to as int)),
{
    let mut parts: Vec<NamePartRef<'a>> = Vec::new();
    let mut seg: usize = from;
    let mut i: usize = from;
    let ghost mut done: Seq<Seq<char>> = Seq::empty();
    assert(cs@.subrange(from as int, from as int) =~= Seq::<char>::empty());
    assert(split_spec(cs@.subrange(from as int, from as int), '.') =~= done.push(
        cs@.subrange(from as int, from as int),
    ));
    while i < to
        invariant
            cs@ == value@,
            from <= seg <= i <= to <= cs@.len(),
            split_spec(cs@.subrange(from as int, i as int), '.') == done.push(
                cs@.subrange(seg as int, i as int),
            ),
            parts@.len() == done.len(),
            forall|j: int| 0 <= j < done.len() ==> #[trigger] parts@[j]@ == part_view_of(done[j]),
        decreases to - i,
    {
        let ghost prev = cs@.subrange(from as int, i as int);
        assert(cs@.subrange(from as int, i + 1).drop_last() =~= prev);
        if cs[i] == '.' {
            let p = parse_part_in(value, cs, seg, i);
            parts.push(p);
            proof {
                done = done.push(cs@.subrange(seg as int, i as int));
                assert(cs@.subrange(i + 1, i + 1) =~= Seq::<char>::empty());
            }
            seg = i + 1;
        } else {
            proof {
                assert(cs@.subrange(seg as int, i + 1) =~= cs@.subrange(seg as int, i as int).push(
                    cs@[i as int],
                ));
                assert(split_spec(cs@.subrange(from as int, i + 1), '.') =~= done.push(
                    cs@.subrange(seg as int, i + 1),
                ));
            }
        }
        i = i + 1;
    }
    let p = parse_part_in(value, cs, seg, to);
    parts.push(p);
    proof {
        let all = done.push(cs@.subrange(seg as int, to as int));
        assert(parts@.map_values(|p: NamePartRef<'a>| p@) =~= all.map_values(
            |s: Seq<char>| part_view_of(s),
        ));
    }
    parts
}

/// Finds the first `::` in `cs`.
fn find_double_colon(cs: &Vec<char>) -> (r: Option<usize>)
    ensures
        match first_double_colon(cs@) {
            Some(i) => r == Some(i as usize),
            None => r is None,
        },
{
    let mut i: usize = 0;
    while i < cs.len()
        invariant
            i <= cs@.len(),
            first_double_colon(cs@.take(i as int)) is None,
        decreases cs@.len() - i,
    {
        assert(cs@.take(i + 1).drop_last() =~= cs@.take(i as int));
        if i >= 1 && cs[i - 1] == ':' && cs[i] == ':' {
            proof {
                lemma_double_colon_prefix(cs@, i + 1);
            }
            return Some(i - 1);
        }
        i = i + 1;
    }
    assert(cs@.take(cs@.len() as int) =~= cs@);
    None
}

/// Where `first_double_colon` points, there is a `::`.
proof fn lemma_double_colon_bounds(s: Seq<char>)
    ensures
        first_double_colon(s) matches Some(i) ==> 0 <= i && i + 2 <= s.len() && s[i] == ':' && s[i
            + 1] == ':',
    decreases s.len(),
{
    if s.len() >= 2 {
        lemma_double_colon_bounds(s.drop_last());
        let t = s.drop_last();
        if let Some(i) = first_double_colon(t) {
            assert(t[i] == s[i] && t[i + 1] == s[i + 1]);
        }
    }
}

/// A `::` found in a prefix is the first `::` of the whole text.
proof fn lemma_double_colon_prefix(s: Seq<char>, i: int)
    requires
        0 <= i <= s.len(),
        first_double_colon(s.take(i)) is Some,
    ensures
        first_double_colon(s) == first_double_colon(s.take(i)),
    decreases s.len(),
{
    if i < s.len() {
        assert(s.drop_last().take(i) =~= s.take(i));
        lemma_double_colon_prefix(s.drop_last(), i);
    } else {
        assert(s.take(i) =~= s);
    }
}

/// Whether `cs[0..n]` is made of alphanumeric characters.
fn all_alphanumeric_prefix(cs: &Vec<char>, n: usize) -> (r: bool)
    requires
        n <= cs@.len(),
    ensures
        r == all_alphanumeric(cs@.take(n as int)),
{
    let mut i: usize = 0;
    while i < n
        invariant
            n <= cs@.len(),
            i <= n,
            forall|j: int| 0 <= j < i ==> super::alphanumeric(#[trigger] cs@[j]),
        decreases n - i,
    {
        if !is_alphanumeric(cs[i]) {
            assert(cs@.take(n as int)[i as int] == cs@[i as int]);
            return false;
        }
        i = i + 1;
    }
    assert forall|j: int| 0 <= j < n implies super::alphanumeric(
        #[trigger] cs@.take(n as int)[j],
    ) by {
        assert(cs@.take(n as int)[j] == cs@[j]);
    }
    true
}

/// A C# qualified name whose parts borrow from the parsed text, in order (e.g. `["MyNamespace",
/// "MyClass"]`).
#[derive(Clone, Debug, PartialEq, Eq, Hash)]
pub struct QualifiedNameRef<'a> {
    pub parts: Vec<NamePartRef<'a>>,
    pub alias: Option<&'a str>,
}

impl<'a> View for QualifiedNameRef<'a> {
    type V = NameView;

    open spec fn view(&self) -> NameView {
        NameView {
            alias: match self.alias {
                Some(a) => Some(a@),
                None => None,
            },
            parts: self.parts@.map_values(|p: NamePartRef<'a>| p@),
        }
    }
}

impl<'a> QualifiedNameRef<'a> {
    /// Parses a name such as `alias::Ns.Type<T>` (see `name_view_of`).
    pub fn from(value: &'a str) -> (r: Self)
        ensures
            r@ == name_view_of(value@),
    {
        let cs = chars_of(value);
        let n = cs.len();
        proof {
            lemma_double_colon_bounds(cs@);
        }
        match find_double_colon(&cs) {
            Some(i) => {
                if all_alphanumeric_prefix(&cs, i) {
                    let alias = value.substring_char(0, i);
                    let parts = parse_parts_in(value, &cs, i + 2, n);
                    proof {
                        assert(cs@.take(i as int) =~= cs@.subrange(0, i as int));
                        assert(cs@.skip(i + 2) =~= cs@.subrange(i + 2, n as int));
                    }
                    return QualifiedNameRef { parts, alias: Some(alias) };
                }
            },
            None => {},
        }
        let parts = parse_parts_in(value, &cs, 0, n);
        assert(cs@.subrange(0, n as int) =~= cs@);
        QualifiedNameRef { parts, alias: None }
    }

    /// Joins two names; fails when the trailing name carries an alias.
    pub fn try_concat(start: Self, end: Self) -> (r: Result<Self, NameError>)
        ensures
            match r {
                Ok(n) => end@.alias is None && n@ == super::joined(start@, end@),
                Err(e) => e matches NameError::BadAlias(s) && end@.alias == Some(s@),
            },
    {
        match end.alias {
            Some(alias) => Err(NameError::BadAlias(String::from_str(alias))),
            None => Ok(Self::concat(start, end)),
        }
    }

    /// Joins two names; the trailing name must not carry an alias.
    pub fn concat(start: Self, end: Self) -> (r: Self)
        requires
            end@.alias is None,
        ensures
            r@ == super::joined(start@, end@),
    {
        let mut parts = start.parts;
        let mut tail = end.parts;
        let ghost p0 = parts@;
        let ghost t0 = tail@;
        parts.append(&mut tail);
        assert(parts@.map_values(|p: NamePartRef<'a>| p@) =~= p0.map_values(
            |p: NamePartRef<'a>| p@,
        ) + t0.map_values(|p: NamePartRef<'a>| p@));
        QualifiedNameRef { parts, alias: start.alias }
    }

    /// Appends a part parsed from `part`.
    pub fn push(&mut self, part: &'a str)
        ensures
            final(self)@ == (NameView {
                alias: old(self)@.alias,
                parts: old(self)@.parts.push(part_view_of(part@)),
            }),
    {
        let p = NamePartRef::from(part);
        self.parts.push(p);
        assert(self.parts@.map_values(|p: NamePartRef<'a>| p@) =~= old(self)@.parts.push(
            part_view_of(part@),
        ));
    }

    /// Removes the last part and returns its identifier.
    pub fn pop(&mut self) -> (r: Option<&'a str>)
        ensures
            old(self)@.parts.len() == 0 ==> r is None && final(self)@ == old(self)@,
            old(self)@.parts.len() > 0 ==> r is Some && r->0@ == old(self)@.parts.last().name
                && final(self)@ == (NameView {
                alias: old(self)@.alias,
                parts: old(self)@.parts.drop_last(),
            }),
    {
        let r = match self.parts.pop() {
            Some(p) => Some(p.name),
            None => None,
        };
        assert(self.parts@.map_values(|p: NamePartRef<'a>| p@) =~= old(self)@.parts.take(
            self.parts@.len() as int,
        ));
        r
    }

    /// An owned copy of this name.
    pub fn to_owned(&self) -> (r: QualifiedNameOwned)
        ensures
            r@ == self@,
    {
        let mut parts: Vec<NamePart> = Vec::new();
        let mut i: usize = 0;
        while i < self.parts.len()
            invariant
                i <= self.parts@.len(),
                parts@.len() == i,
                forall|j: int| 0 <= j < i ==> #[trigger] parts@[j]@ == self.parts@[j]@,
            decreases self.parts@.len() - i,
        {
            parts.push(self.parts[i].to_owned());
            i = i + 1;
        }
        let alias = match self.alias {
            Some(a) => Some(String::from_str(a)),
            None => None,
        };
        let r = QualifiedNameOwned { parts, alias };
        assert(r@.parts =~= self@.parts);
        r
    }

    /// A copy of the parts in `[from, to)`, without alias.
    fn copy_parts(&self, from: usize, to: usize) -> (r: Vec<NamePartRef<'a>>)
        requires
            from <= to <= self.parts@.len(),
        ensures
            r@ == self.parts@.subrange(from as int, to as int),
    {
        let mut r: Vec<NamePartRef<'a>> = Vec::new();
        let mut i: usize = from;
        while i < to
            invariant
                from <= i <= to <= self.parts@.len(),
                r@ == self.parts@.subrange(from as int, i as int),
            decreases to - i,
        {
            r.push(self.parts[i]);
            assert(r@ =~= self.parts@.subrange(from as int, i + 1));
            i = i + 1;
        }
        r
    }
}

impl<'a> QualifiedName for QualifiedNameRef<'a> {
    open spec fn name_view(&self) -> NameView {
        self@
    }

    fn global() -> (r: Self) {
        let r = QualifiedNameRef { parts: Vec::new(), alias: Some("global") };
        assert(r@.parts =~= Seq::<PartView>::empty());
        r
    }

    fn len(&self) -> (n: usize) {
        self.parts.len()
    }

    fn part_name(&self, index: usize) -> (s: &str) {
        self.parts[index].name
    }

    fn part_generics(&self, index: usize) -> (g: usize) {
        self.parts[index].generics
    }

    fn alias_name(&self) -> (a: Option<&str>) {
        self.alias
    }

    fn split_off(&mut self, index: usize) -> (tail: Self) {
        let rest = self.parts.split_off(index);
        let tail = QualifiedNameRef { parts: rest, alias: None };
        assert(self@.parts =~= old(self)@.parts.take(index as int));
        assert(tail@.parts =~= old(self)@.parts.skip(index as int));
        tail
    }

    fn split(&self, index: usize) -> (r: (Self, Self)) {
        let head = QualifiedNameRef { parts: self.copy_parts(0, index), alias: self.alias };
        let tail = QualifiedNameRef { parts: self.copy_parts(index, self.parts.len()), alias: None };
        assert(head@.parts =~= self@.parts.take(index as int));
        assert(tail@.parts =~= self@.parts.skip(index as int));
        (head, tail)
    }

    fn resolve_alias(&mut self, namespace: Self) {
        if self.alias.is_some() {
            let ghost ns = namespace@;
            let mut parts = namespace.parts;
            let ghost p0 = parts@;
            parts.append(&mut self.parts);
            self.parts = parts;
            self.alias = namespace.alias;
            assert(self@.parts =~= ns.parts + old(self)@.parts);
        }
    }
}

} // verus!
