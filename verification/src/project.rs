//! The decisions taken while the roots of a Unity project are gathered: which directory of a
//! project is its root, which dependencies are local packages to follow, which names in the
//! package cache are packages, and the set of dependencies not resolved yet.

use crate::text::{chars_of, str_equal, str_starts_with, string_views};
use vstd::prelude::*;
use vstd::string::*;

verus! {

/// Whether `c` has the Unicode `White_Space` property, which `char::is_whitespace` tests: tab,
/// line feed, vertical tab, form feed, carriage return, space, next line, no-break space, ogham
/// space mark, the spaces from en quad to hair space, line separator, paragraph separator,
/// narrow no-break space, medium mathematical space and ideographic space.
pub open spec fn char_is_whitespace(c: char) -> bool {
    let u = c as u32;
    ||| 0x09 <= u <= 0x0D
    ||| u == 0x20
    ||| u == 0x85
    ||| u == 0xA0
    ||| u == 0x1680
    ||| 0x2000 <= u <= 0x200A
    ||| u == 0x2028
    ||| u == 0x2029
    ||| u == 0x202F
    ||| u == 0x205F
    ||| u == 0x3000
}

/// Whether `c` is white space (see `char_is_whitespace`).
fn is_whitespace(c: char) -> (b: bool)
    ensures
        b == char_is_whitespace(c),
{
    let u = c as u32;
    (0x09 <= u && u <= 0x0D) || u == 0x20 || u == 0x85 || u == 0xA0 || u == 0x1680 || (0x2000 <= u
        && u <= 0x200A) || u == 0x2028 || u == 0x2029 || u == 0x202F || u == 0x205F || u == 0x3000
}

/// The parsed contents of the package list of a project (its `Packages` directory): each dependency with its version.
#[derive(Debug)]
pub struct ManifestJson {
    pub dependencies: Vec<(String, String)>,
}

/// The parsed contents of a package's `package.json`: its dependencies, if it lists any.
#[derive(Debug)]
pub struct PackageJson {
    pub dependencies: Option<Vec<(String, String)>>,
}

/// The marker of a dependency on a package on disk.
pub const LOCAL_PREFIX: &'static str = "file:";

/// The prefix of the packages that Unity itself provides.
pub const BUILTIN_PREFIX: &'static str = "com.unity.";

/// `s` with every leading repetition of `prefix` taken off.
pub open spec fn strip_all(s: Seq<char>, prefix: Seq<char>) -> Seq<char>
    decreases s.len(),
{
    if prefix.len() > 0 && prefix.len() <= s.len() && s.take(prefix.len() as int) == prefix {
        strip_all(s.skip(prefix.len() as int), prefix)
    } else {
        s
    }
}

/// The number of leading white-space characters of `s`.
pub open spec fn leading_space(s: Seq<char>) -> nat
    decreases s.len(),
{
    if s.len() > 0 && char_is_whitespace(s[0]) {
        1 + leading_space(s.drop_first())
    } else {
        0
    }
}

/// The number of trailing white-space characters of `s`.
pub open spec fn trailing_space(s: Seq<char>) -> nat
    decreases s.len(),
{
    if s.len() > 0 && char_is_whitespace(s.last()) {
        1 + trailing_space(s.drop_last())
    } else {
        0
    }
}

/// `s` without leading and trailing white space.
pub open spec fn trimmed(s: Seq<char>) -> Seq<char> {
    let t = s.skip(leading_space(s) as int);
    t.take(t.len() - trailing_space(t))
}

/// Where a dependency comes from.
#[derive(Debug, PartialEq, Eq)]
pub enum DependencySource {
    /// A package on disk, at this path relative to the declaring manifest.
    Local(String),
    /// A package of a registry.
    Registry,
}

/// Where a dependency whose version is written `version` comes from: a version that starts with
/// `file:` names a package on disk by the rest (every leading `file:` taken off, then trimmed).
pub open spec fn dependency_source_of(version: Seq<char>) -> Option<Seq<char>> {
    if LOCAL_PREFIX@.len() <= version.len() && version.take(LOCAL_PREFIX@.len() as int)
        == LOCAL_PREFIX@ {
        Some(trimmed(strip_all(version, LOCAL_PREFIX@)))
    } else {
        None
    }
}

proof fn lemma_leading_space_bound(s: Seq<char>)
    ensures
        leading_space(s) <= s.len(),
    decreases s.len(),
{
    if s.len() > 0 && char_is_whitespace(s[0]) {
        lemma_leading_space_bound(s.drop_first());
    }
}

proof fn lemma_trailing_space_bound(s: Seq<char>)
    ensures
        trailing_space(s) <= s.len(),
    decreases s.len(),
{
    if s.len() > 0 && char_is_whitespace(s.last()) {
        lemma_trailing_space_bound(s.drop_last());
    }
}

/// `cs[from..to]` without leading and trailing white space, as a string.
fn trim_range(text: &str, cs: &Vec<char>, from: usize, to: usize) -> (r: String)
    requires
        cs@ == text@,
        from <= to <= cs@.len(),
    ensures
        r@ == trimmed(cs@.subrange(from as int, to as int)),
{
    let ghost s = cs@.subrange(from as int, to as int);
    let mut a: usize = from;
    while a < to && is_whitespace(cs[a])
        invariant
            from <= a <= to,
            to <= cs@.len(),
            s == cs@.subrange(from as int, to as int),
            leading_space(s) == (a - from) + leading_space(cs@.subrange(a as int, to as int)),
        decreases to - a,
    {
        proof {
            let t = cs@.subrange(a as int, to as int);
            assert(t.drop_first() =~= cs@.subrange(a + 1, to as int));
        }
        a = a + 1;
    }
    proof {
        let t = cs@.subrange(a as int, to as int);
        if a < to {
            assert(t[0] == cs@[a as int]);
        }
        assert(leading_space(s) == a - from);
        assert(s.skip(a - from) =~= t);
    }
    let mut b: usize = to;
    let ghost t = cs@.subrange(a as int, to as int);
    while b > a && is_whitespace(cs[b - 1])
        invariant
            a <= b <= to,
            to <= cs@.len(),
            t == cs@.subrange(a as int, to as int),
            trailing_space(t) == (to - b) + trailing_space(cs@.subrange(a as int, b as int)),
        decreases b - a,
    {
        proof {
            let u = cs@.subrange(a as int, b as int);
            assert(u.drop_last() =~= cs@.subrange(a as int, (b - 1) as int));
            assert(u.last() == cs@[b - 1]);
        }
        b = b - 1;
    }
    proof {
        let u = cs@.subrange(a as int, b as int);
        if b > a {
            assert(u.last() == cs@[b - 1]);
        }
        assert(trailing_space(t) == to - b);
        assert(t.take(t.len() - trailing_space(t)) =~= u);
    }
    let r = String::from_str(text.substring_char(a, b));
    r
}

/// Where a dependency whose version is written `version` comes from (see
/// `dependency_source_of`).
pub fn dependency_source(version: &str) -> (r: DependencySource)
    ensures
        match r {
            DependencySource::Local(p) => dependency_source_of(version@) == Some(p@),
            DependencySource::Registry => dependency_source_of(version@) is None,
        },
{
    proof {
        reveal_strlit("file:");
    }
    if !str_starts_with(version, LOCAL_PREFIX) {
        return DependencySource::Registry;
    }
    let cs = chars_of(version);
    let ghost p = LOCAL_PREFIX@;
    let mut start: usize = 0;
    proof {
        assert(p =~= seq!['f', 'i', 'l', 'e', ':']);
        assert(cs@.skip(0) =~= cs@);
    }
    while start < cs.len() && cs.len() - start >= 5 && cs[start] == 'f' && cs[start + 1] == 'i' && cs[start + 2] == 'l'
        && cs[start + 3] == 'e' && cs[start + 4] == ':'
        invariant
            cs@ == version@,
            start <= cs@.len(),
            p == seq!['f', 'i', 'l', 'e', ':'],
            strip_all(version@, p) == strip_all(cs@.skip(start as int), p),
        decreases cs@.len() - start,
    {
        proof {
            let s = cs@.skip(start as int);
            assert(s.take(5) =~= p);
            assert(s.skip(5) =~= cs@.skip(start + 5));
        }
        start = start + 5;
    }
    proof {
        let s = cs@.skip(start as int);
        if 5 <= s.len() && s.take(5) == p {
            assert(s.take(5)[0] == cs@[start as int]);
            assert(s.take(5)[1] == cs@[start + 1]);
            assert(s.take(5)[2] == cs@[start + 2]);
            assert(s.take(5)[3] == cs@[start + 3]);
            assert(s.take(5)[4] == cs@[start + 4]);
        }
        assert(strip_all(s, p) == s);
        assert(cs@.subrange(start as int, cs@.len() as int) =~= s);
    }
    DependencySource::Local(trim_range(version, &cs, start, cs.len()))
}

/// The name of the package whose directory in the package cache is `file_name`: everything
/// before the first `@`, when there is one.
pub open spec fn cached_package_name_of(file_name: Seq<char>) -> Option<Seq<char>> {
    if exists|i: int| 0 <= i < file_name.len() && file_name[i] == '@' {
        let i = choose|i: int|
            0 <= i < file_name.len() && file_name[i] == '@' && forall|j: int|
                0 <= j < i ==> file_name[j] != '@';
        Some(file_name.take(i))
    } else {
        None
    }
}

/// The name of the package whose directory in the package cache is `file_name` (see
/// `cached_package_name_of`).
pub fn cached_package_name(file_name: &str) -> (r: Option<String>)
    ensures
        match r {
            Some(n) => cached_package_name_of(file_name@) == Some(n@),
            None => cached_package_name_of(file_name@) is None,
        },
{
    let cs = chars_of(file_name);
    let mut i: usize = 0;
    while i < cs.len()
        invariant
            cs@ == file_name@,
            i <= cs@.len(),
            forall|j: int| 0 <= j < i ==> cs@[j] != '@',
        decreases cs@.len() - i,
    {
        if cs[i] == '@' {
            let name = file_name.substring_char(0, i);
            proof {
                let c = choose|c: int|
                    0 <= c < file_name@.len() && file_name@[c] == '@' && forall|j: int|
                        0 <= j < c ==> file_name@[j] != '@';
                if c < i {
                    assert(cs@[c] != '@');
                } else if c > i {
                    assert(file_name@[i as int] != '@');
                }
                assert(file_name@.subrange(0, i as int) =~= file_name@.take(i as int));
            }
            return Some(String::from_str(name));
        }
        i = i + 1;
    }
    None
}

/// Whether `name` is a package that Unity itself provides (`com.unity.` first).
pub fn is_builtin_package(name: &str) -> (b: bool)
    ensures
        b == (BUILTIN_PREFIX@.len() <= name@.len() && name@.take(BUILTIN_PREFIX@.len() as int)
            == BUILTIN_PREFIX@),
{
    str_starts_with(name, BUILTIN_PREFIX)
}

/// Whether the root of a project is its `Assets` directory rather than the project directory:
/// when the project has both that directory and a package list in its `Packages` directory.
pub fn uses_assets_dir(has_assets_dir: bool, has_manifest: bool) -> (b: bool)
    ensures
        b == (has_assets_dir && has_manifest),
{
    has_assets_dir && has_manifest
}

/// What a dependency of a manifest asks for: a package on disk, to be followed at the returned
/// path relative to the manifest, or a registry package, which is noted in `unresolved` by `name`.
pub fn note_dependency(name: String, version: &str, unresolved: &mut NameSet) -> (r: Option<String>)
    ensures
        match dependency_source_of(version@) {
            Some(p) => r matches Some(q) && q@ == p && final(unresolved)@ == old(unresolved)@,
            None => r is None && final(unresolved)@ == old(unresolved)@.insert(name@),
        },
{
    match dependency_source(version) {
        DependencySource::Local(p) => Some(p),
        DependencySource::Registry => {
            unresolved.insert(name);
            None
        },
    }
}

/// The package that an entry of the package cache provides and that is to be followed: the
/// entry is a directory, its name holds a package name (see `cached_package_name_of`) that Unity
/// does not provide itself, and that package is still unresolved.
pub open spec fn cached_package_to_follow(
    file_name: Seq<char>,
    is_dir: bool,
    unresolved: Set<Seq<char>>,
) -> Option<Seq<char>> {
    match cached_package_name_of(file_name) {
        Some(n) => if (BUILTIN_PREFIX@.len() <= n.len() && n.take(BUILTIN_PREFIX@.len() as int)
            == BUILTIN_PREFIX@) || !is_dir || !unresolved.contains(n) {
            None
        } else {
            Some(n)
        },
        None => None,
    }
}

/// Whether the entry `file_name` of the package cache is to be followed (see
/// `cached_package_to_follow`); a followed package is no longer unresolved.
pub fn follow_cached_package(file_name: &str, is_dir: bool, unresolved: &mut NameSet) -> (follow: bool)
    ensures
        match cached_package_to_follow(file_name@, is_dir, old(unresolved)@) {
            Some(n) => follow && final(unresolved)@ == old(unresolved)@.remove(n),
            None => !follow && final(unresolved)@ == old(unresolved)@,
        },
{
    match cached_package_name(file_name) {
        None => false,
        Some(n) => {
            if is_builtin_package(n.as_str()) {
                false
            } else if is_dir && unresolved.contains(n.as_str()) {
                unresolved.remove(n.as_str());
                true
            } else {
                false
            }
        },
    }
}

/// A set of strings, each held once.
#[derive(Debug)]
pub struct NameSet {
    names: Vec<String>,
}

impl View for NameSet {
    type V = Set<Seq<char>>;

    closed spec fn view(&self) -> Set<Seq<char>> {
        string_views(self.names@).to_set()
    }
}

impl NameSet {
    /// An empty set.
    pub fn new() -> (r: NameSet)
        ensures
            r@ == Set::<Seq<char>>::empty(),
    {
        let r = NameSet { names: Vec::new() };
        assert(r.names@.map_values(|s: String| s@).to_set() =~= Set::empty());
        r
    }

    /// The position of `name`, if it is held.
    fn position(&self, name: &str) -> (r: Option<usize>)
        ensures
            match r {
                Some(i) => i < self.names@.len() && self.names@[i as int]@ == name@,
                None => forall|i: int| 0 <= i < self.names@.len() ==> self.names@[i]@ != name@,
            },
    {
        let mut i: usize = 0;
        while i < self.names.len()
            invariant
                i <= self.names@.len(),
                forall|j: int| 0 <= j < i ==> self.names@[j]@ != name@,
            decreases self.names@.len() - i,
        {
            if str_equal(self.names[i].as_str(), name) {
                return Some(i);
            }
            i = i + 1;
        }
        None
    }

    /// Whether `name` is held.
    pub fn contains(&self, name: &str) -> (b: bool)
        ensures
            b == self@.contains(name@),
    {
        let r = self.position(name);
        proof {
            let views = string_views(self.names@);
            match r {
                Some(i) => {
                    assert(views[i as int] == name@);
                },
                None => {
                    if views.contains(name@) {
                        let j = choose|j: int| 0 <= j < views.len() && views[j] == name@;
                        assert(self.names@[j]@ == name@);
                    }
                },
            }
        }
        r.is_some()
    }

    /// Adds `name`; tells whether it was not held yet.
    pub fn insert(&mut self, name: String) -> (added: bool)
        ensures
            final(self)@ == old(self)@.insert(name@),
            added == !old(self)@.contains(name@),
    {
        if self.contains(name.as_str()) {
            proof {
                assert(self@.insert(name@) =~= self@);
            }
            return false;
        }
        let ghost before = string_views(self.names@);
        let ghost n = name@;
        self.names.push(name);
        proof {
            assert(string_views(self.names@) =~= before.push(n));
            before.lemma_push_to_set_commute(n);
        }
        true
    }

    /// Takes `name` out; tells whether it was held.
    pub fn remove(&mut self, name: &str) -> (removed: bool)
        ensures
            final(self)@ == old(self)@.remove(name@),
            removed == old(self)@.contains(name@),
    {
        let ghost before = string_views(self.names@);
        let removed = self.contains(name);
        let mut kept: Vec<String> = Vec::new();
        let mut i: usize = 0;
        while i < self.names.len()
            invariant
                i <= self.names@.len(),
                before == string_views(self.names@),
                forall|x: Seq<char>|
                    string_views(kept@).contains(x) <==> (x != name@ && exists|j: int|
                        0 <= j < i && before[j] == x),
            decreases self.names@.len() - i,
        {
            if !str_equal(self.names[i].as_str(), name) {
                let ghost k0 = string_views(kept@);
                kept.push(self.names[i].clone());
                proof {
                    assert(string_views(kept@) =~= k0.push(before[i as int]));
                    assert forall|x: Seq<char>|
                        string_views(kept@).contains(x) <==> (x != name@ && exists|j: int|
                            0 <= j < i + 1 && before[j] == x) by {
                        if string_views(kept@).contains(x) {
                            let q = choose|q: int|
                                0 <= q < kept@.len() && string_views(kept@)[q] == x;
                            if q < k0.len() {
                                assert(k0[q] == x);
                                assert(k0.contains(x));
                            } else {
                                assert(before[i as int] == x);
                            }
                        }
                        if x != name@ && exists|j: int| 0 <= j < i + 1 && before[j] == x {
                            let j = choose|j: int| 0 <= j < i + 1 && before[j] == x;
                            if j < i {
                                assert(k0.contains(x));
                                let q = choose|q: int| 0 <= q < k0.len() && k0[q] == x;
                                assert(string_views(kept@)[q] == x);
                            } else {
                                assert(string_views(kept@)[k0.len() as int] == x);
                            }
                        }
                    }
                }
            } else {
                proof {
                    assert forall|x: Seq<char>|
                        string_views(kept@).contains(x) <==> (x != name@ && exists|j: int|
                            0 <= j < i + 1 && before[j] == x) by {
                        if x != name@ && exists|j: int| 0 <= j < i + 1 && before[j] == x {
                            let j = choose|j: int| 0 <= j < i + 1 && before[j] == x;
                            assert(j != i);
                        }
                    }
                }
            }
            i = i + 1;
        }
        self.names = kept;
        proof {
            assert forall|x: Seq<char>| self@.contains(x) <==> old(self)@.remove(name@).contains(x) by {
                if exists|j: int| 0 <= j < before.len() && before[j] == x {
                    assert(before.contains(x));
                }
                if before.contains(x) {
                    let j = choose|j: int| 0 <= j < before.len() && before[j] == x;
                    assert(0 <= j < i && before[j] == x);
                }
            }
            assert(self@ =~= old(self)@.remove(name@));
        }
        removed
    }

    /// The held strings.
    pub fn names(&self) -> (r: &Vec<String>)
        ensures
            string_views(r@).to_set() == self@,
    {
        &self.names
    }
}

} // verus!
