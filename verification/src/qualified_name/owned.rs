use super::{
    names_equal, resolve_alias_view, NameError, NamePartRef, NameView, PartView, QualifiedName,
    QualifiedNamePart,
    QualifiedNameRef, name_view_of, part_view_of,
};
use crate::text::str_equal;
use vstd::prelude::*;
use vstd::string::*;

verus! {

/// One part of a qualified name, owning its identifier.
#[derive(Debug, PartialEq, Eq, Hash)]
pub struct NamePart {
    pub name: String,
    pub generics: usize,
}

impl View for NamePart {
    type V = PartView;

    open spec fn view(&self) -> PartView {
        PartView { name: self.name@, generics: self.generics as nat }
    }
}

impl Clone for NamePart {
    fn clone(&self) -> (r: Self)
        ensures
            r == *self,
    {
        NamePart { name: self.name.clone(), generics: self.generics }
    }
}

impl QualifiedNamePart for NamePart {
    open spec fn part_view(&self) -> PartView {
        self@
    }

    fn name(&self) -> (s: &str) {
        self.name.as_str()
    }

    fn generics(&self) -> (g: usize) {
        self.generics
    }
}

impl NamePart {
    /// Parses a part such as `List<T>` (see `part_view_of`).
    pub fn from(value: &str) -> (r: Self)
        ensures
            r@ == part_view_of(value@),
    {
        NamePartRef::from(value).to_owned()
    }

    /// A view of this part that borrows its identifier.
    pub fn as_ref(&self) -> (r: NamePartRef<'_>)
        ensures
            r@ == self@,
    {
        NamePartRef { name: self.name.as_str(), generics: self.generics }
    }

    /// The identifier.
    pub fn name(&self) -> (s: &str)
        ensures
            s@ == self@.name,
    {
        self.name.as_str()
    }

    /// The number of generic arguments.
    pub fn generics(&self) -> (g: usize)
        ensures
            g == self@.generics,
    {
        self.generics
    }
}

/// A C# qualified name owning its parts, in order (e.g. `["MyNamespace", "MyClass"]`).
#[derive(Debug, PartialEq, Eq, Hash)]
pub struct QualifiedNameOwned {
    pub parts: Vec<NamePart>,
    pub alias: Option<String>,
}

impl View for QualifiedNameOwned {
    type V = NameView;

    open spec fn view(&self) -> NameView {
        NameView {
            alias: match self.alias {
                Some(a) => Some(a@),
                None => None,
            },
            parts: self.parts@.map_values(|p: NamePart| p@),
        }
    }
}

impl Clone for QualifiedNameOwned {
    fn clone(&self) -> (r: Self)
        ensures
            r@ == self@,
    {
        let parts = self.parts.clone();
        assert(parts@ =~= self.parts@);
        let alias = match &self.alias {
            Some(a) => Some(a.clone()),
            None => None,
        };
        QualifiedNameOwned { parts, alias }
    }
}

impl QualifiedNameOwned {
    /// Parses a name such as `alias::Ns.Type<T>` (see `name_view_of`).
    pub fn from(value: &str) -> (r: Self)
        ensures
            r@ == name_view_of(value@),
    {
        QualifiedNameRef::from(value).to_owned()
    }

    /// A view of this name that borrows its parts.
    pub fn as_ref(&self) -> (r: QualifiedNameRef<'_>)
        ensures
            r@ == self@,
    {
        let mut parts: Vec<NamePartRef<'_>> = Vec::new();
        let mut i: usize = 0;
        while i < self.parts.len()
            invariant
                i <= self.parts@.len(),
                parts@.len() == i,
                forall|j: int| 0 <= j < i ==> #[trigger] parts@[j]@ == self.parts@[j]@,
            decreases self.parts@.len() - i,
        {
            parts.push(self.parts[i].as_ref());
            i = i + 1;
        }
        let alias = match &self.alias {
            Some(a) => Some(a.as_str()),
            None => None,
        };
        let r = QualifiedNameRef { parts, alias };
        assert(r@.parts =~= self@.parts);
        r
    }

    /// Whether both names have the same alias and the same parts.
    pub fn same(&self, other: &QualifiedNameOwned) -> (b: bool)
        ensures
            b == (self@ == other@),
    {
        let same_alias = match (&self.alias, &other.alias) {
            (Some(x), Some(y)) => str_equal(x.as_str(), y.as_str()),
            (None, None) => true,
            _ => false,
        };
        if !same_alias || self.len() != other.len() {
            return false;
        }
        let r = crate::qualified_name::parts_equal_from(self, 0, other);
        assert(self@.parts.skip(0) =~= self@.parts);
        r
    }

    /// Joins two names; fails when the trailing name carries an alias.
    pub fn try_concat(start: Self, end: Self) -> (r: Result<Self, NameError>)
        ensures
            match r {
                Ok(n) => end@.alias is None && n@ == super::joined(start@, end@),
                Err(e) => e matches NameError::BadAlias(s) && end@.alias == Some(s@),
            },
    {
        match end.alias {
            Some(alias) => Err(NameError::BadAlias(alias)),
            None => Ok(Self::concat(start, end)),
        }
    }

    /// Joins two names; the trailing name must not carry an alias.
    pub fn concat(start: Self, end: Self) -> (r: Self)
        requires
            end@.alias is None,
        ensures
            r@ == super::joined(start@, end@),
    {
        let mut parts = start.parts;
        let mut tail = end.parts;
        let ghost p0 = parts@;
        let ghost t0 = tail@;
        parts.append(&mut tail);
        assert(parts@.map_values(|p: NamePart| p@) =~= p0.map_values(|p: NamePart| p@)
            + t0.map_values(|p: NamePart| p@));
        QualifiedNameOwned { parts, alias: start.alias }
    }

    /// The text shown for this name (see `name_text`).
    pub fn to_text(&self) -> (s: String)
        requires
            super::names_displayable(self@),
        ensures
            s@ == super::name_text(self@),
    {
        super::name_to_text(self)
    }

    /// Whether this name equals the name parsed from `other`, as `==` compares names.
    pub fn eq_str(&self, other: &str) -> (b: bool)
        ensures
            b == super::names_match(self@, name_view_of(other@)),
    {
        let parsed = QualifiedNameRef::from(other);
        names_equal(self, &parsed)
    }
}

impl QualifiedName for QualifiedNameOwned {
    open spec fn name_view(&self) -> NameView {
        self@
    }

    fn global() -> (r: Self) {
        let r = QualifiedNameOwned { parts: Vec::new(), alias: Some(String::from_str("global")) };
        assert(r@.parts =~= Seq::<PartView>::empty());
        r
    }

    fn len(&self) -> (n: usize) {
        self.parts.len()
    }

    fn part_name(&self, index: usize) -> (s: &str) {
        self.parts[index].name.as_str()
    }

    fn part_generics(&self, index: usize) -> (g: usize) {
        self.parts[index].generics
    }

    fn alias_name(&self) -> (a: Option<&str>) {
        match &self.alias {
            Some(s) => Some(s.as_str()),
            None => None,
        }
    }

    fn split_off(&mut self, index: usize) -> (tail: Self) {
        let rest = self.parts.split_off(index);
        let tail = QualifiedNameOwned { parts: rest, alias: None };
        assert(self@.parts =~= old(self)@.parts.take(index as int));
        assert(tail@.parts =~= old(self)@.parts.skip(index as int));
        tail
    }

    fn split(&self, index: usize) -> (r: (Self, Self)) {
        let mut head = self.clone();
        let tail = head.split_off(index);
        (head, tail)
    }

    fn resolve_alias(&mut self, namespace: Self) {
        if self.alias.is_some() {
            let ghost ns = namespace@;
            let mut parts = namespace.parts;
            parts.append(&mut self.parts);
            self.parts = parts;
            self.alias = namespace.alias;
            assert(self@.parts =~= ns.parts + old(self)@.parts);
        }
    }
}

} // verus!
