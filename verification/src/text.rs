use vstd::prelude::*;
use vstd::string::*;

verus! {

broadcast use vstd::string::group_string_axioms;

/// The texts of a list of strings.
pub open spec fn string_views(v: Seq<String>) -> Seq<Seq<char>> {
    v.map_values(|s: String| s@)
}

/// The position of the first occurrence of `c` in `s`, if any.
pub open spec fn first_index(s: Seq<char>, c: char) -> Option<int>
    decreases s.len(),
{
    if s.len() == 0 {
        None
    } else {
        match first_index(s.drop_last(), c) {
            Some(i) => Some(i),
            None => if s.last() == c {
                Some(s.len() - 1)
            } else {
                None
            },
        }
    }
}

/// `first_index` finds exactly the first occurrence.
pub proof fn lemma_first_index(s: Seq<char>, c: char)
    ensures
        match first_index(s, c) {
            Some(i) => 0 <= i < s.len() && s[i] == c && forall|j: int| 0 <= j < i ==> s[j] != c,
            None => forall|j: int| 0 <= j < s.len() ==> s[j] != c,
        },
    decreases s.len(),
{
    if s.len() > 0 {
        let t = s.drop_last();
        lemma_first_index(t, c);
        assert forall|j: int| 0 <= j < t.len() implies t[j] == s[j] by {}
    }
}

/// The pieces of `s` between occurrences of `sep`, as `str::split` with a `char` pattern gives them.
pub open spec fn split_spec(s: Seq<char>, sep: char) -> Seq<Seq<char>>
    decreases s.len(),
{
    if s.len() == 0 {
        seq![Seq::<char>::empty()]
    } else {
        let pieces = split_spec(s.drop_last(), sep);
        if s.last() == sep {
            pieces.push(Seq::<char>::empty())
        } else {
            pieces.update(pieces.len() - 1, pieces.last().push(s.last()))
        }
    }
}

/// `split_spec` never yields an empty list of pieces.
pub proof fn lemma_split_nonempty(s: Seq<char>, sep: char)
    ensures
        split_spec(s, sep).len() >= 1,
    decreases s.len(),
{
    if s.len() > 0 {
        lemma_split_nonempty(s.drop_last(), sep);
    }
}

/// The characters of `s`, in order.
pub fn chars_of(s: &str) -> (v: Vec<char>)
    ensures
        v@ == s@,
{
    let mut v: Vec<char> = Vec::new();
    for c in it: s.chars()
        invariant
            v@ == it.seq().take(it.index() as int),
    {
        v.push(c);
    }
    v
}

/// Whether two character vectors hold the same characters.
pub fn chars_equal(a: &Vec<char>, b: &Vec<char>) -> (r: bool)
    ensures
        r == (a@ == b@),
{
    if a.len() != b.len() {
        return false;
    }
    let mut i: usize = 0;
    while i < a.len()
        invariant
            a@.len() == b@.len(),
            i <= a@.len(),
            forall|j: int| 0 <= j < i ==> a@[j] == b@[j],
        decreases a@.len() - i,
    {
        if a[i] != b[i] {
            return false;
        }
        i = i + 1;
    }
    assert(a@ =~= b@);
    true
}

/// Whether two strings hold the same characters.
pub fn str_equal(a: &str, b: &str) -> (r: bool)
    ensures
        r == (a@ == b@),
{
    let x = chars_of(a);
    let y = chars_of(b);
    chars_equal(&x, &y)
}

/// Whether `s` begins with `prefix`.
pub fn str_starts_with(s: &str, prefix: &str) -> (r: bool)
    ensures
        r == (prefix@.len() <= s@.len() && s@.take(prefix@.len() as int) == prefix@),
{
    let x = chars_of(s);
    let p = chars_of(prefix);
    if p.len() > x.len() {
        return false;
    }
    let mut i: usize = 0;
    while i < p.len()
        invariant
            p@.len() <= x@.len(),
            x@ == s@,
            p@ == prefix@,
            i <= p@.len(),
            forall|j: int| 0 <= j < i ==> x@[j] == p@[j],
        decreases p@.len() - i,
    {
        if x[i] != p[i] {
            assert(s@.take(prefix@.len() as int)[i as int] != prefix@[i as int]);
            return false;
        }
        i = i + 1;
    }
    assert(s@.take(prefix@.len() as int) =~= prefix@);
    true
}

/// The position of the first `c` in `cs[from..to]`, counted from the start of `cs`.
pub fn find_char(cs: &Vec<char>, from: usize, to: usize, c: char) -> (r: Option<usize>)
    requires
        from <= to <= cs@.len(),
    ensures
        match first_index(cs@.subrange(from as int, to as int), c) {
            Some(i) => r == Some((from + i) as usize),
            None => r is None,
        },
{
    let ghost sub = cs@.subrange(from as int, to as int);
    proof {
        lemma_first_index(sub, c);
    }
    let mut i: usize = from;
    while i < to
        invariant
            from <= i <= to <= cs@.len(),
            sub == cs@.subrange(from as int, to as int),
            forall|j: int| from <= j < i ==> cs@[j] != c,
            match first_index(sub, c) {
                Some(k) => 0 <= k < sub.len() && sub[k] == c && forall|j: int| 0 <= j < k ==> sub[j] != c,
                None => forall|j: int| 0 <= j < sub.len() ==> sub[j] != c,
            },
        decreases to - i,
    {
        if cs[i] == c {
            proof {
                assert(sub[i - from] == c);
                match first_index(sub, c) {
                    Some(k) => {
                        if k < i - from {
                            assert(sub[k] == cs@[from + k]);
                        } else if k > i - from {
                            assert(sub[i - from] != c);
                        }
                    },
                    None => {},
                }
            }
            return Some(i);
        }
        i = i + 1;
    }
    proof {
        match first_index(sub, c) {
            Some(k) => {
                assert(sub[k] == cs@[from + k]);
            },
            None => {},
        }
    }
    None
}

/// The pieces of `value` between occurrences of `sep`, as `str::split` gives them.
pub fn split_str<'a>(value: &'a str, sep: char) -> (r: Vec<&'a str>)
    ensures
        r@.map_values(|p: &'a str| p@) == split_spec(value@, sep),
{
    let cs = chars_of(value);
    let n = cs.len();
    let mut pieces: Vec<&'a str> = Vec::new();
    let mut seg: usize = 0;
    let mut i: usize = 0;
    let ghost mut done: Seq<Seq<char>> = Seq::empty();
    assert(cs@.subrange(0, 0) =~= Seq::<char>::empty());
    assert(split_spec(cs@.subrange(0, 0), sep) =~= done.push(cs@.subrange(0, 0)));
    while i < n
        invariant
            cs@ == value@,
            n == cs@.len(),
            seg <= i <= n,
            split_spec(cs@.subrange(0, i as int), sep) == done.push(cs@.subrange(seg as int, i as int)),
            pieces@.len() == done.len(),
            forall|j: int| 0 <= j < done.len() ==> #[trigger] pieces@[j]@ == done[j],
        decreases n - i,
    {
        assert(cs@.subrange(0, i + 1).drop_last() =~= cs@.subrange(0, i as int));
        if cs[i] == sep {
            pieces.push(value.substring_char(seg, i));
            proof {
                done = done.push(cs@.subrange(seg as int, i as int));
                assert(cs@.subrange(i + 1, i + 1) =~= Seq::<char>::empty());
            }
            seg = i + 1;
        } else {
            proof {
                assert(cs@.subrange(seg as int, i + 1) =~= cs@.subrange(seg as int, i as int).push(
                    cs@[i as int],
                ));
                assert(split_spec(cs@.subrange(0, i + 1), sep) =~= done.push(
                    cs@.subrange(seg as int, i + 1),
                ));
            }
        }
        i = i + 1;
    }
    pieces.push(value.substring_char(seg, n));
    proof {
        assert(cs@.subrange(0, n as int) =~= cs@);
        let all = done.push(cs@.subrange(seg as int, n as int));
        assert(pieces@.map_values(|p: &'a str| p@) =~= all);
    }
    pieces
}

/// Owned copies of the pieces of `value` between occurrences of `sep`.
pub fn split_owned(value: &str, sep: char) -> (r: Vec<String>)
    ensures
        r@.map_values(|p: String| p@) == split_spec(value@, sep),
{
    let pieces = split_str(value, sep);
    let mut out: Vec<String> = Vec::new();
    let mut i: usize = 0;
    while i < pieces.len()
        invariant
            i <= pieces@.len(),
            out@.len() == i,
            forall|j: int| 0 <= j < i ==> #[trigger] out@[j]@ == pieces@[j]@,
        decreases pieces@.len() - i,
    {
        out.push(String::from_str(pieces[i]));
        i = i + 1;
    }
    assert(out@.map_values(|p: String| p@) =~= pieces@.map_values(|p: &str| p@));
    out
}

} // verus!
