use super::{NamePartRef, PartView, QualifiedName, QualifiedNameRef};
use crate::text::str_equal;
use vstd::prelude::*;

verus! {

/// Whether `a` is a prefix of `b` (possibly `b` itself).
pub open spec fn is_prefix(a: Seq<PartView>, b: Seq<PartView>) -> bool {
    a.len() <= b.len() && b.take(a.len() as int) == a
}

/// Whether `a` is a prefix of `b` other than `b` itself.
pub open spec fn is_proper_prefix(a: Seq<PartView>, b: Seq<PartView>) -> bool {
    is_prefix(a, b) && a != b
}

/// The names left after taking `p` out of `names`; a tree that loses its last name is the empty
/// tree, which holds the empty name.
pub open spec fn removed_view(names: Set<Seq<PartView>>, p: Seq<PartView>) -> Set<Seq<PartView>> {
    if names.remove(p) == Set::<Seq<PartView>>::empty() {
        set![Seq::<PartView>::empty()]
    } else {
        names.remove(p)
    }
}

/// Whether no name of `names` starts with `q` (or is `q`).
pub open spec fn fresh_in(names: Set<Seq<PartView>>, q: Seq<PartView>) -> bool {
    forall|p: Seq<PartView>| names.contains(p) ==> !is_prefix(q, p)
}

/// The names held after inserting `q`: a fresh `q` is added and replaces the held names that
/// are proper prefixes of it; otherwise nothing changes.
pub open spec fn inserted_view(names: Set<Seq<PartView>>, q: Seq<PartView>) -> Set<Seq<PartView>> {
    if fresh_in(names, q) {
        names.filter(|p: Seq<PartView>| !is_proper_prefix(p, q)).insert(q)
    } else {
        names
    }
}

/// The names held after removing `q`: a held `q` is taken out; a name that is not held leaves
/// the names as they are.
pub open spec fn removed_name_view(names: Set<Seq<PartView>>, q: Seq<PartView>) -> Set<
    Seq<PartView>,
> {
    if names.contains(q) {
        removed_view(names, q)
    } else {
        names
    }
}

/// The names held after inserting each of `qs` in turn into a tree holding `names`.
pub open spec fn inserted_all_view(names: Set<Seq<PartView>>, qs: Seq<Seq<PartView>>) -> Set<
    Seq<PartView>,
>
    decreases qs.len(),
{
    if qs.len() == 0 {
        names
    } else {
        inserted_view(inserted_all_view(names, qs.drop_last()), qs.last())
    }
}

/// A search tree over fully-qualified names: each level maps a name part to the tree of the
/// names that continue it. The names held are the paths from the root to the leaves.
#[derive(Debug)]
pub struct QualifiedNameSearchTree<'a> {
    names: Vec<(NamePartRef<'a>, Box<QualifiedNameSearchTree<'a>>)>,
}

impl<'a> View for QualifiedNameSearchTree<'a> {
    type V = Set<Seq<PartView>>;

    /// The names held by the tree.
    open spec fn view(&self) -> Set<Seq<PartView>> {
        Set::new(|p: Seq<PartView>| self.has_path(p))
    }
}

impl<'a> QualifiedNameSearchTree<'a> {
    /// Whether no name held by the tree starts with `q` (or is `q`).
    pub open spec fn is_fresh(self, q: Seq<PartView>) -> bool {
        forall|p: Seq<PartView>| self.has_path(p) ==> !is_prefix(q, p)
    }

    /// The number of parts at the first level.
    pub closed spec fn width(self) -> nat {
        self.names@.len()
    }

    /// The part at position `i` of the first level.
    pub closed spec fn key(self, i: int) -> PartView {
        self.names@[i].0@
    }

    /// The subtree under the part at position `i` of the first level.
    pub closed spec fn child(self, i: int) -> QualifiedNameSearchTree<'a> {
        *self.names@[i].1
    }

    /// Whether `p` is a name held by the tree: a path from the root to a leaf. The empty tree
    /// holds exactly the empty name.
    pub closed spec fn has_path(self, p: Seq<PartView>) -> bool
        decreases self,
    {
        if self.names@.len() == 0 {
            p.len() == 0
        } else {
            p.len() > 0 && exists|i: int|
                0 <= i < self.names@.len() && self.names@[i].0@ == p[0]
                    && (*self.names@[i].1).has_path(p.drop_first())
        }
    }

    /// Well-formedness: the parts at each level are distinct.
    pub closed spec fn wf(self) -> bool
        decreases self,
    {
        &&& forall|i: int, j: int|
            0 <= i < j < self.names@.len() ==> self.names@[i].0@ != self.names@[j].0@
        &&& forall|i: int| 0 <= i < self.names@.len() ==> (*self.names@[i].1).wf()
    }

    /// The subtree reached by following the parts of `q` from the root.
    pub closed spec fn node_at(self, q: Seq<PartView>) -> Option<QualifiedNameSearchTree<'a>>
        decreases q.len(),
    {
        if q.len() == 0 {
            Some(self)
        } else if exists|i: int| 0 <= i < self.names@.len() && self.names@[i].0@ == q[0] {
            let i = choose|i: int| 0 <= i < self.names@.len() && self.names@[i].0@ == q[0];
            (*self.names@[i].1).node_at(q.drop_first())
        } else {
            None
        }
    }

    /// Every tree holds at least one name.
    pub proof fn lemma_has_some_path(self)
        ensures
            exists|p: Seq<PartView>| self.has_path(p),
        decreases self,
    {
        if self.names@.len() == 0 {
            assert(self.has_path(Seq::empty()));
        } else {
            let c = *self.names@[0].1;
            c.lemma_has_some_path();
            let p0 = choose|p: Seq<PartView>| c.has_path(p);
            let p = seq![self.names@[0].0@] + p0;
            assert(p.drop_first() =~= p0);
            assert(self.has_path(p));
        }
    }

    /// In a well-formed tree, the names that start with the part at position `i` are that part
    /// followed by the names of its subtree.
    proof fn lemma_child_paths(self, i: int, q: Seq<PartView>)
        requires
            self.wf(),
            0 <= i < self.names@.len(),
            q.len() > 0,
            q[0] == self.names@[i].0@,
        ensures
            self.has_path(q) == (*self.names@[i].1).has_path(q.drop_first()),
    {
        if self.has_path(q) {
            let j = choose|j: int|
                0 <= j < self.names@.len() && self.names@[j].0@ == q[0]
                    && (*self.names@[j].1).has_path(q.drop_first());
            assert(i == j);
        }
    }

    /// Where no part of the first level is `q[0]`, the tree holds no name starting with it.
    proof fn lemma_absent_key(self, q: Seq<PartView>)
        requires
            q.len() > 0,
            forall|i: int| 0 <= i < self.names@.len() ==> self.names@[i].0@ != q[0],
        ensures
            self.has_path(q) == (self.names@.len() == 0 && q.len() == 0),
    {
    }

    /// Two trees that differ only in the subtree at position `j`, whose part is not `p[0]`,
    /// hold the same names starting with `p[0]`.
    proof fn lemma_frame(self, other: Self, j: int, p: Seq<PartView>)
        requires
            self.names@.len() == other.names@.len(),
            0 <= j < self.names@.len(),
            forall|i: int| 0 <= i < self.names@.len() && i != j ==> self.names@[i] == other.names@[i],
            self.names@[j].0@ == other.names@[j].0@,
            p.len() > 0,
            p[0] != self.names@[j].0@,
        ensures
            self.has_path(p) == other.has_path(p),
    {
        if self.has_path(p) {
            let w = choose|w: int|
                0 <= w < self.names@.len() && self.names@[w].0@ == p[0]
                    && (*self.names@[w].1).has_path(p.drop_first());
            assert(other.names@[w] == self.names@[w]);
        }
        if other.has_path(p) {
            let w = choose|w: int|
                0 <= w < other.names@.len() && other.names@[w].0@ == p[0]
                    && (*other.names@[w].1).has_path(p.drop_first());
            assert(other.names@[w] == self.names@[w]);
        }
    }

    /// The names of a tree whose first level is that of `self` and one more part `k` with
    /// subtree `sub`.
    proof fn lemma_pushed(self, other: Self, p: Seq<PartView>)
        requires
            other.names@.len() == self.names@.len() + 1,
            forall|i: int| 0 <= i < self.names@.len() ==> self.names@[i] == other.names@[i],
            p.len() > 0,
        ensures
            other.has_path(p) == ((self.names@.len() > 0 && self.has_path(p)) || (other.names@.last().0@
                == p[0] && (*other.names@.last().1).has_path(p.drop_first()))),
    {
        let last = self.names@.len() as int;
        if other.has_path(p) {
            let w = choose|w: int|
                0 <= w < other.names@.len() && other.names@[w].0@ == p[0]
                    && (*other.names@[w].1).has_path(p.drop_first());
            if w < last {
                assert(self.names@[w] == other.names@[w]);
            }
        }
        if self.names@.len() > 0 && self.has_path(p) {
            let w = choose|w: int|
                0 <= w < self.names@.len() && self.names@[w].0@ == p[0]
                    && (*self.names@[w].1).has_path(p.drop_first());
            assert(self.names@[w] == other.names@[w]);
        }
    }

    /// A tree holds the empty name exactly when it has no parts.
    pub proof fn lemma_empty_path(self)
        ensures
            self.has_path(Seq::empty()) == (self.width() == 0),
    {
    }

    /// A tree that holds the empty name holds no other.
    proof fn lemma_only_empty(self)
        requires
            self.has_path(Seq::empty()),
        ensures
            forall|p: Seq<PartView>| self.has_path(p) ==> p.len() == 0,
    {
    }

    /// Where no part of the first level is `m[0]`, no held name starts with `m`.
    proof fn lemma_keys_absent(self, m: Seq<PartView>)
        requires
            m.len() > 0,
            forall|i: int| 0 <= i < self.names@.len() ==> self.names@[i].0@ != m[0],
        ensures
            forall|p: Seq<PartView>| self.has_path(p) ==> !is_prefix(m, p),
    {
        assert forall|p: Seq<PartView>| self.has_path(p) implies !is_prefix(m, p) by {
            if is_prefix(m, p) {
                assert(p.take(m.len() as int)[0] == p[0]);
                self.lemma_absent_key(p);
            }
        }
    }

    /// One step of `node_at`: a non-empty name goes down to the subtree of its first part, if
    /// the first level has that part.
    proof fn lemma_node_at_step(self, m: Seq<PartView>)
        requires
            m.len() > 0,
        ensures
            (exists|i: int| 0 <= i < self.names@.len() && self.names@[i].0@ == m[0])
                ==> self.node_at(m) == (*self.names@[choose|i: int|
                0 <= i < self.names@.len() && self.names@[i].0@ == m[0]].1).node_at(m.drop_first()),
            !(exists|i: int| 0 <= i < self.names@.len() && self.names@[i].0@ == m[0])
                ==> self.node_at(m) is None,
    {
    }

    /// Being a prefix is transitive.
    pub proof fn lemma_prefix_trans(a: Seq<PartView>, b: Seq<PartView>, c: Seq<PartView>)
        requires
            is_prefix(a, b),
            is_prefix(b, c),
        ensures
            is_prefix(a, c),
    {
        assert(c.take(a.len() as int) =~= b.take(a.len() as int));
    }

    /// No name held by a well-formed tree is a proper prefix of another.
    pub proof fn lemma_prefix_free(self, a: Seq<PartView>, b: Seq<PartView>)
        requires
            self.wf(),
            self.has_path(a),
            self.has_path(b),
            is_prefix(a, b),
        ensures
            a == b,
        decreases a.len(),
    {
        if self.names@.len() > 0 {
            let w = choose|w: int|
                0 <= w < self.names@.len() && self.names@[w].0@ == a[0]
                    && (*self.names@[w].1).has_path(a.drop_first());
            assert(b.take(a.len() as int)[0] == b[0]);
            self.lemma_child_paths(w, b);
            let c = *self.names@[w].1;
            assert(b.drop_first().take(a.len() - 1) =~= a.drop_first());
            c.lemma_prefix_free(a.drop_first(), b.drop_first());
            assert(a =~= seq![a[0]] + a.drop_first());
            assert(b =~= seq![b[0]] + b.drop_first());
        } else {
            assert(a.len() == 0 && b.len() == 0);
            assert(a =~= b);
        }
    }

    /// Removing the part at position `j` removes exactly the names starting with it.
    proof fn lemma_removed_entry(self, other: Self, j: int, p: Seq<PartView>)
        requires
            self.wf(),
            0 <= j < self.names@.len(),
            other.names@ == self.names@.remove(j),
            p.len() > 0,
        ensures
            other.has_path(p) == (self.has_path(p) && p[0] != self.names@[j].0@),
    {
        if other.has_path(p) {
            let w = choose|w: int|
                0 <= w < other.names@.len() && other.names@[w].0@ == p[0]
                    && (*other.names@[w].1).has_path(p.drop_first());
            let w2 = if w < j { w } else { w + 1 };
            assert(other.names@[w] == self.names@[w2]);
            assert(w2 != j);
        }
        if self.has_path(p) && p[0] != self.names@[j].0@ {
            let w = choose|w: int|
                0 <= w < self.names@.len() && self.names@[w].0@ == p[0]
                    && (*self.names@[w].1).has_path(p.drop_first());
            let w2 = if w < j { w } else { w - 1 };
            assert(other.names@[w2] == self.names@[w]);
        }
    }

    /// Two prefixes of the same sequence are prefixes of one another.
    proof fn lemma_prefixes_comparable(a: Seq<PartView>, b: Seq<PartView>, q: Seq<PartView>)
        requires
            is_prefix(a, q),
            is_prefix(b, q),
            a.len() <= b.len(),
        ensures
            is_prefix(a, b),
    {
        assert(b.take(a.len() as int) =~= q.take(a.len() as int));
    }

    /// In a well-formed tree, at most one held name is a prefix of `q`.
    proof fn lemma_unique_cover(self, a: Seq<PartView>, b: Seq<PartView>, q: Seq<PartView>)
        requires
            self.wf(),
            self.has_path(a),
            self.has_path(b),
            is_prefix(a, q),
            is_prefix(b, q),
        ensures
            a == b,
    {
        if a.len() <= b.len() {
            Self::lemma_prefixes_comparable(a, b, q);
            self.lemma_prefix_free(a, b);
        } else {
            Self::lemma_prefixes_comparable(b, a, q);
            self.lemma_prefix_free(b, a);
        }
    }

    /// `p` with the part `k` in front is a prefix of `q` with `k` in front exactly when `p` is a
    /// prefix of `q`.
    proof fn lemma_prefix_cons(k: PartView, p: Seq<PartView>, q: Seq<PartView>)
        ensures
            is_prefix(seq![k] + p, seq![k] + q) == is_prefix(p, q),
    {
        if is_prefix(p, q) {
            assert((seq![k] + q).take(p.len() as int + 1) =~= seq![k] + q.take(p.len() as int));
        }
        if is_prefix(seq![k] + p, seq![k] + q) {
            assert(q.take(p.len() as int) =~= (seq![k] + q).take(p.len() as int + 1).drop_first());
            assert((seq![k] + p).drop_first() =~= p);
        }
    }

    /// Effect on the held names of replacing the subtree at position `j`, where `q` starts with
    /// its part, by the result of removing the rest of `q` from it.
    proof fn lemma_replace_entry_effect(self, t: Self, c: Self, j: int, q: Seq<PartView>)
        requires
            t.wf(),
            0 <= j < t.names@.len(),
            q.len() > 0,
            t.names@[j].0@ == q[0],
            c == *t.names@[j].1,
            self.names@.len() == t.names@.len(),
            forall|a: int| 0 <= a < t.names@.len() && a != j ==> self.names@[a] == t.names@[a],
            self.names@[j].0 == t.names@[j].0,
            (*self.names@[j].1).wf(),
            (*self.names@[j].1).names@.len() > 0,
            forall|p: Seq<PartView>|
                c.has_path(p) && is_prefix(p, q.drop_first()) ==> (*self.names@[j].1)@
                    == removed_view(c@, p),
            (forall|p: Seq<PartView>| c.has_path(p) ==> !is_prefix(p, q.drop_first())) ==> (
            *self.names@[j].1)@ == c@,
        ensures
            self.wf(),
            forall|p: Seq<PartView>|
                t.has_path(p) && is_prefix(p, q) ==> self@ == removed_view(t@, p),
            (forall|p: Seq<PartView>| t.has_path(p) ==> !is_prefix(p, q)) ==> self@ == t@,
    {
        let k = q[0];
        let qr = q.drop_first();
        let c2 = *self.names@[j].1;
        assert(q =~= seq![k] + qr);
        assert forall|a: int, b: int|
            0 <= a < b < self.names@.len() implies self.names@[a].0@ != self.names@[b].0@ by {}
        // the held names starting with `k` follow the subtree
        assert forall|x: Seq<PartView>| x.len() > 0 && x[0] == k implies self.has_path(x)
            == c2.has_path(x.drop_first()) && t.has_path(x) == c.has_path(x.drop_first()) by {
            t.lemma_child_paths(j, x);
            self.lemma_child_paths(j, x);
        }
        assert forall|x: Seq<PartView>| x.len() > 0 && x[0] != k implies self.has_path(x)
            == t.has_path(x) by {
            t.lemma_frame(self, j, x);
        }
        if exists|p: Seq<PartView>| t.has_path(p) && is_prefix(p, q) {
            let p = choose|p: Seq<PartView>| t.has_path(p) && is_prefix(p, q);
            assert(p.len() > 0);
            assert(q.take(p.len() as int)[0] == q[0]);
            let pr = p.drop_first();
            assert(p =~= seq![k] + pr);
            Self::lemma_prefix_cons(k, pr, qr);
            assert(c.has_path(pr));
            assert(c2@ == removed_view(c@, pr));
            c2.lemma_empty_path();
            assert(!c2@.contains(Seq::<PartView>::empty()));
            assert(c2@ == c@.remove(pr));
            assert forall|x: Seq<PartView>| self.has_path(x) == (t.has_path(x) && x != p) by {
                if x.len() > 0 && x[0] == k {
                    let xr = x.drop_first();
                    assert(c2@.contains(xr) == c2.has_path(xr));
                    assert(c@.contains(xr) == c.has_path(xr));
                    assert(x =~= seq![k] + xr);
                    if xr == pr {
                        assert(x == p);
                    }
                }
            }
            self.lemma_has_some_path();
            let w = choose|w: Seq<PartView>| self.has_path(w);
            assert(t@.remove(p).contains(w));
            assert(self@ =~= t@.remove(p));
            assert forall|p2: Seq<PartView>| t.has_path(p2) && is_prefix(p2, q) implies self@
                == removed_view(t@, p2) by {
                t.lemma_unique_cover(p, p2, q);
            }
        } else {
            assert forall|pr: Seq<PartView>| c.has_path(pr) implies !is_prefix(pr, qr) by {
                let p = seq![k] + pr;
                assert(p.drop_first() =~= pr);
                t.lemma_child_paths(j, p);
                Self::lemma_prefix_cons(k, pr, qr);
            }
            assert forall|x: Seq<PartView>| self.has_path(x) == t.has_path(x) by {
                if x.len() > 0 && x[0] == k {
                    let xr = x.drop_first();
                    assert(c2@.contains(xr) == c2.has_path(xr));
                    assert(c@.contains(xr) == c.has_path(xr));
                }
            }
            assert(self@ =~= t@);
        }
    }

    /// Effect on the held names of dropping the subtree at position `j`, where `q` starts with its
    /// part, once removing the rest of `q` from it left it without parts.
    proof fn lemma_remove_entry_effect(self, t: Self, c: Self, c2: Self, j: int, q: Seq<PartView>)
        requires
            t.wf(),
            0 <= j < t.names@.len(),
            q.len() > 0,
            t.names@[j].0@ == q[0],
            c == *t.names@[j].1,
            c.wf(),
            self.names@ == t.names@.remove(j),
            c2.names@.len() == 0,
            forall|p: Seq<PartView>|
                c.has_path(p) && is_prefix(p, q.drop_first()) ==> c2@ == removed_view(c@, p),
            (forall|p: Seq<PartView>| c.has_path(p) ==> !is_prefix(p, q.drop_first())) ==> c2@ == c@,
        ensures
            forall|p: Seq<PartView>|
                t.has_path(p) && is_prefix(p, q) ==> self@ == removed_view(t@, p),
            (forall|p: Seq<PartView>| t.has_path(p) ==> !is_prefix(p, q)) ==> self@ == t@,
    {
        let k = q[0];
        let qr = q.drop_first();
        assert(q =~= seq![k] + qr);
        assert(c2@ =~= set![Seq::<PartView>::empty()]) by {
            assert forall|x: Seq<PartView>| c2@.contains(x) == (x == Seq::<PartView>::empty()) by {
                if x.len() == 0 {
                    assert(x =~= Seq::<PartView>::empty());
                }
            }
        }
        // the subtree held exactly one name, which covers the rest of `q`
        let pr = if exists|p: Seq<PartView>| c.has_path(p) && is_prefix(p, qr) {
            choose|p: Seq<PartView>| c.has_path(p) && is_prefix(p, qr)
        } else {
            Seq::<PartView>::empty()
        };
        assert(c.has_path(pr) && is_prefix(pr, qr)) by {
            if !(exists|p: Seq<PartView>| c.has_path(p) && is_prefix(p, qr)) {
                assert(c2@ == c@);
                assert(c2@.contains(Seq::<PartView>::empty()));
                assert(c.has_path(Seq::<PartView>::empty()));
                assert(qr.take(0) =~= Seq::<PartView>::empty());
            }
        }
        assert(c@.remove(pr) =~= Set::<Seq<PartView>>::empty()) by {
            if c@.remove(pr) != Set::<Seq<PartView>>::empty() {
                assert(c2@ == c@.remove(pr));
                assert(c2@.contains(Seq::<PartView>::empty()));
                assert(c.has_path(Seq::<PartView>::empty()));
                c.lemma_empty_path();
                assert(c@.contains(pr));
                assert(pr == Seq::<PartView>::empty());
            }
        }
        assert forall|x: Seq<PartView>| c.has_path(x) implies x == pr by {
            assert(c@.contains(x));
            if x != pr {
                assert(c@.remove(pr).contains(x));
            }
        }
        let p = seq![k] + pr;
        assert(p.drop_first() =~= pr);
        t.lemma_child_paths(j, p);
        Self::lemma_prefix_cons(k, pr, qr);
        assert(t.has_path(p) && is_prefix(p, q));
        // held names after dropping the subtree
        assert forall|x: Seq<PartView>| x.len() > 0 implies self.has_path(x) == (t.has_path(x)
            && x != p) by {
            t.lemma_removed_entry(self, j, x);
            if x[0] == k {
                t.lemma_child_paths(j, x);
                if t.has_path(x) {
                    assert(x.drop_first() == pr);
                    assert(x =~= seq![k] + x.drop_first());
                }
            } else {
                assert(p[0] == k);
            }
        }
        if self.names@.len() == 0 {
            assert forall|x: Seq<PartView>| t.has_path(x) implies x == p by {
                if x.len() > 0 {
                    assert(!self.has_path(x));
                }
            }
            assert(t@.remove(p) =~= Set::<Seq<PartView>>::empty());
            assert forall|x: Seq<PartView>| self@.contains(x) == (x == Seq::<PartView>::empty()) by {
                if x.len() == 0 {
                    assert(x =~= Seq::<PartView>::empty());
                }
            }
            assert(self@ =~= removed_view(t@, p));
        } else {
            self.lemma_has_some_path();
            let w = choose|w: Seq<PartView>| self.has_path(w);
            assert(w.len() > 0);
            assert(t@.remove(p).contains(w));
            assert forall|x: Seq<PartView>| self@.contains(x) == t@.remove(p).contains(x) by {
                if x.len() == 0 {
                    t.lemma_empty_path();
                }
            }
            assert(self@ =~= removed_view(t@, p));
        }
        assert forall|p2: Seq<PartView>| t.has_path(p2) && is_prefix(p2, q) implies self@
            == removed_view(t@, p2) by {
            t.lemma_unique_cover(p, p2, q);
        }
    }

    /// An empty tree.
    pub fn new() -> (r: Self)
        ensures
            r.wf(),
            r.width() == 0,
            forall|p: Seq<PartView>| r.has_path(p) <==> p.len() == 0,
    {
        QualifiedNameSearchTree { names: Vec::new() }
    }

    /// The number of parts at the first level.
    pub fn len(&self) -> (n: usize)
        ensures
            n == self.width(),
    {
        self.names.len()
    }

    /// The position of the first-level part `name`/`generics`, if present.
    fn find(&self, name: &str, generics: usize) -> (r: Option<usize>)
        ensures
            match r {
                Some(j) => j < self.names@.len() && self.names@[j as int].0@ == (PartView {
                    name: name@,
                    generics: generics as nat,
                }),
                None => forall|i: int|
                    0 <= i < self.names@.len() ==> self.names@[i].0@ != (PartView {
                        name: name@,
                        generics: generics as nat,
                    }),
            },
    {
        let mut i: usize = 0;
        while i < self.names.len()
            invariant
                i <= self.names@.len(),
                forall|j: int|
                    0 <= j < i ==> self.names@[j].0@ != (PartView {
                        name: name@,
                        generics: generics as nat,
                    }),
            decreases self.names@.len() - i,
        {
            let key = &self.names[i].0;
            if key.generics == generics && str_equal(key.name, name) {
                return Some(i);
            }
            i = i + 1;
        }
        None
    }

    /// Whether `name` (its parts; an alias is ignored) is a name held by the tree.
    pub fn contains<Q: QualifiedName>(&self, name: &Q) -> (r: bool)
        requires
            self.wf(),
        ensures
            r == self.has_path(name.name_view().parts),
    {
        let ghost parts = name.name_view().parts;
        let n = name.len();
        let mut node: &Self = self;
        let mut i: usize = 0;
        assert(parts.skip(0) =~= parts);
        while i < n
            invariant
                n == parts.len(),
                parts == name.name_view().parts,
                i <= n,
                node.wf(),
                self.has_path(parts) == node.has_path(parts.skip(i as int)),
            decreases n - i,
        {
            let ghost q = parts.skip(i as int);
            assert(q.drop_first() =~= parts.skip(i + 1));
            match node.find(name.part_name(i), name.part_generics(i)) {
                Some(j) => {
                    proof {
                        node.lemma_child_paths(j as int, q);
                    }
                    node = &node.names[j].1;
                    i = i + 1;
                },
                None => {
                    proof {
                        node.lemma_absent_key(q);
                    }
                    return false;
                },
            }
        }
        node.names.len() == 0
    }

    /// The subtree reached by following the parts of `name` (an alias is ignored).
    pub fn get<Q: QualifiedName>(&self, name: &Q) -> (r: Option<&Self>)
        requires
            self.wf(),
        ensures
            match r {
                Some(t) => self.node_at(name.name_view().parts) == Some(*t) && t.wf(),
                None => self.node_at(name.name_view().parts) is None,
            },
    {
        let ghost parts = name.name_view().parts;
        let n = name.len();
        let mut node: &Self = self;
        let mut i: usize = 0;
        assert(parts.skip(0) =~= parts);
        while i < n
            invariant
                n == parts.len(),
                parts == name.name_view().parts,
                i <= n,
                node.wf(),
                self.node_at(parts) == node.node_at(parts.skip(i as int)),
            decreases n - i,
        {
            let ghost q = parts.skip(i as int);
            assert(q.drop_first() =~= parts.skip(i + 1));
            match node.find(name.part_name(i), name.part_generics(i)) {
                Some(j) => {
                    proof {
                        let w = choose|w: int|
                            0 <= w < node.names@.len() && node.names@[w].0@ == q[0];
                        assert(w == j);
                    }
                    node = &node.names[j].1;
                    i = i + 1;
                },
                None => {
                    return None;
                },
            }
        }
        Some(node)
    }

    /// Inserts the parts of `name` from position `i` on.
    fn insert_from(&mut self, name: &QualifiedNameRef<'a>, i: usize) -> (r: bool)
        requires
            old(self).wf(),
            i <= name@.parts.len(),
        ensures
            final(self).wf(),
            r == old(self).is_fresh(name@.parts.skip(i as int)),
            r ==> final(self)@ == old(self)@.filter(
                |p: Seq<PartView>| !is_proper_prefix(p, name@.parts.skip(i as int)),
            ).insert(name@.parts.skip(i as int)),
            !r ==> final(self)@ == old(self)@,
        decreases name@.parts.len() - i,
    {
        let ghost q = name@.parts.skip(i as int);
        let ghost t = *self;
        proof {
            t.lemma_has_some_path();
        }
        let n = name.parts.len();
        if i == n {
            proof {
                let p = choose|p: Seq<PartView>| t.has_path(p);
                assert(p.take(0) =~= q);
            }
            return false;
        }
        let part = name.parts[i];
        assert(q[0] == part@);
        let ghost qr = q.drop_first();
        assert(qr =~= name@.parts.skip(i + 1));
        match self.find(part.name, part.generics) {
            Some(j) => {
                let ghost c = *self.names@[j as int].1;
                proof {
                    c.lemma_has_some_path();
                }
                if i + 1 == n {
                    proof {
                        let p0 = choose|p: Seq<PartView>| c.has_path(p);
                        let p = seq![part@] + p0;
                        assert(p.drop_first() =~= p0);
                        t.lemma_child_paths(j as int, p);
                        assert(p.take(1) =~= q);
                    }
                    return false;
                }
                let r = self.names[j].1.insert_from(name, i + 1);
                proof {
                    let u = *self;
                    let c2 = *u.names@[j as int].1;
                    assert(u.names@[j as int].0@ == part@);
                    assert forall|a: int, b: int|
                        0 <= a < b < u.names@.len() implies u.names@[a].0@ != u.names@[b].0@ by {
                        assert(u.names@[a].0 == t.names@[a].0);
                        assert(u.names@[b].0 == t.names@[b].0);
                    }
                    assert forall|a: int| 0 <= a < u.names@.len() implies (*u.names@[a].1).wf() by {
                        if a != j {
                            assert(u.names@[a] == t.names@[a]);
                        }
                    }
                    // freshness at this level is freshness of the rest in the subtree
                    assert forall|p: Seq<PartView>| t.is_fresh(q) && c.has_path(p) implies !is_prefix(qr, p) by {
                        let pp = seq![part@] + p;
                        assert(pp.drop_first() =~= p);
                        t.lemma_child_paths(j as int, pp);
                        if is_prefix(qr, p) {
                            assert(q =~= seq![part@] + qr);
                            assert(pp.take(q.len() as int) =~= seq![part@] + p.take(qr.len() as int));
                        }
                    }
                    assert forall|p: Seq<PartView>| c.is_fresh(qr) && t.has_path(p) implies !is_prefix(q, p) by {
                        if p[0] == part@ {
                            t.lemma_child_paths(j as int, p);
                            if is_prefix(q, p) {
                                assert(p.drop_first().take(qr.len() as int) =~= qr);
                            }
                        } else if is_prefix(q, p) {
                            assert(p.take(q.len() as int)[0] == p[0]);
                        }
                    }
                    assert forall|p: Seq<PartView>| u.has_path(p) == (if r {
                        p == q || (t.has_path(p) && !is_proper_prefix(p, q))
                    } else {
                        t.has_path(p)
                    }) by {
                        if p.len() == 0 {
                        } else if p[0] == part@ {
                            t.lemma_child_paths(j as int, p);
                            u.lemma_child_paths(j as int, p);
                            let pr = p.drop_first();
                            assert(c2@.contains(pr) == c2.has_path(pr));
                            assert(c@.contains(pr) == c.has_path(pr));
                            assert(c2.has_path(pr) == (if r {
                                pr == qr || (c.has_path(pr) && !is_proper_prefix(pr, qr))
                            } else {
                                c.has_path(pr)
                            }));
                            assert(p =~= seq![part@] + pr);
                            assert(q =~= seq![part@] + qr);
                            if pr == qr {
                                assert(p == q);
                            }
                            if p == q {
                                assert(pr =~= qr);
                            }
                            if is_prefix(pr, qr) {
                                assert(q.take(p.len() as int) =~= seq![part@] + qr.take(pr.len() as int));
                            }
                            if is_prefix(p, q) {
                                assert(qr.take(pr.len() as int) =~= q.take(p.len() as int).drop_first());
                            }
                        } else {
                            t.lemma_frame(u, j as int, p);
                            if is_prefix(p, q) {
                                assert(q.take(p.len() as int)[0] == q[0]);
                            }
                        }
                    }
                    if r {
                        assert(u@ =~= t@.filter(|p: Seq<PartView>| !is_proper_prefix(p, q)).insert(q));
                    } else {
                        assert(u@ =~= t@);
                    }
                }
                r
            },
            None => {
                let mut sub = Self::new();
                let ghost e = sub;
                let _ = sub.insert_from(name, i + 1);
                let ghost sub_v = sub;
                proof {
                    assert forall|p: Seq<PartView>| sub_v.has_path(p) <==> p == qr by {
                        assert(sub_v@.contains(p) == sub_v.has_path(p));
                        assert(e@.contains(p) == e.has_path(p));
                        if qr.len() == 0 {
                            assert(e.has_path(qr));
                            assert(qr.take(0) =~= qr);
                            assert(!e.is_fresh(qr));
                            assert(sub_v@ == e@);
                            if p.len() == 0 {
                                assert(p =~= qr);
                            }
                        } else {
                            assert(e.is_fresh(qr));
                            assert(e@.filter(|p: Seq<PartView>| !is_proper_prefix(p, qr)).insert(
                                qr,
                            ).contains(p) == (p == qr || (e.has_path(p) && !is_proper_prefix(p, qr))));
                            if p.len() == 0 {
                                assert(qr.take(0) =~= p);
                            }
                        }
                    }
                }
                self.names.push((part, Box::new(sub)));
                proof {
                    let u = *self;
                    assert(forall|p: Seq<PartView>| sub_v.has_path(p) <==> p == qr);
                    assert forall|a: int, b: int|
                        0 <= a < b < u.names@.len() implies u.names@[a].0@ != u.names@[b].0@ by {
                        assert(u.names@[a].0 == if a < t.names@.len() { t.names@[a].0 } else { part });
                    }
                    assert forall|a: int| 0 <= a < u.names@.len() implies (*u.names@[a].1).wf() by {
                        if a < t.names@.len() {
                            assert(u.names@[a] == t.names@[a]);
                        }
                    }
                    assert forall|p: Seq<PartView>| t.has_path(p) implies !is_prefix(q, p) by {
                        if t.names@.len() > 0 && is_prefix(q, p) {
                            assert(p.take(q.len() as int)[0] == p[0]);
                            t.lemma_absent_key(p);
                        }
                    }
                    assert forall|p: Seq<PartView>| u.has_path(p) == (p == q || (t.has_path(p)
                        && !is_proper_prefix(p, q))) by {
                        if p.len() == 0 {
                            assert(is_prefix(p, q)) by {
                                assert(q.take(0) =~= p);
                            }
                        } else {
                            t.lemma_pushed(u, p);
                            if p[0] == part@ && t.names@.len() > 0 {
                                t.lemma_absent_key(p);
                            }
                            if p == q {
                                assert(p.drop_first() =~= qr);
                            }
                            if p[0] == part@ && p.drop_first() == qr {
                                assert(q =~= seq![part@] + qr);
                                assert(p =~= seq![p[0]] + p.drop_first());
                            }
                            if p[0] != part@ && is_prefix(p, q) {
                                assert(q.take(p.len() as int)[0] == q[0]);
                            }
                        }
                    }
                    assert(u@ =~= t@.filter(|p: Seq<PartView>| !is_proper_prefix(p, q)).insert(q));
                }
                true
            },
        }
    }

    /// Adds a fully-qualified name to the tree. Returns true if newly added, false if it was
    /// already present (or only starts a name already present).
    pub fn insert(&mut self, name: QualifiedNameRef<'a>) -> (r: bool)
        requires
            old(self).wf(),
        ensures
            final(self).wf(),
            r == fresh_in(old(self)@, name@.parts),
            final(self)@ == inserted_view(old(self)@, name@.parts),
    {
        let r = self.insert_from(&name, 0);
        assert(name@.parts.skip(0) =~= name@.parts);
        proof {
            let t = *old(self);
            assert forall|p: Seq<PartView>| t@.contains(p) == t.has_path(p) by {}
            assert(t.is_fresh(name@.parts) == fresh_in(t@, name@.parts));
        }
        r
    }

    /// Builds a tree holding the given names, inserted in order.
    pub fn from_iter(names: Vec<QualifiedNameRef<'a>>) -> (r: Self)
        ensures
            r.wf(),
            r@ == inserted_all_view(
                set![Seq::<PartView>::empty()],
                names@.map_values(|n: QualifiedNameRef<'a>| n@.parts),
            ),
    {
        let ghost qs = names@.map_values(|n: QualifiedNameRef<'a>| n@.parts);
        let mut tree = Self::new();
        assert forall|x: Seq<PartView>| tree@.contains(x) == set![Seq::<PartView>::empty()].contains(x) by {
            if x.len() == 0 {
                assert(x =~= Seq::<PartView>::empty());
            }
        }
        assert(tree@ =~= set![Seq::<PartView>::empty()]);
        let mut i: usize = 0;
        let ghost start = tree@;
        assert(qs.take(0) =~= Seq::<Seq<PartView>>::empty());
        for name in it: names
            invariant
                tree.wf(),
                qs == it.seq().map_values(|n: QualifiedNameRef<'a>| n@.parts),
                start == set![Seq::<PartView>::empty()],
                tree@ == inserted_all_view(start, qs.take(it.index() as int)),
        {
            let ghost k = it.index();
            assert(qs.take(k + 1).drop_last() =~= qs.take(k as int));
            assert(qs.take(k + 1).last() == name@.parts);
            tree.insert(name);
        }
        assert(qs.take(qs.len() as int) =~= qs);
        tree
    }

    /// Whether every name held by `self` is held by `other`.
    fn names_within(&self, other: &Self) -> (r: bool)
        requires
            self.wf(),
            other.wf(),
        ensures
            r == self@.subset_of(other@),
        decreases self,
    {
        if self.names.len() == 0 {
            assert(self.has_path(Seq::<PartView>::empty()));
            assert(self@.contains(Seq::<PartView>::empty()));
            return other.names.len() == 0;
        }
        let mut i: usize = 0;
        while i < self.names.len()
            invariant
                self.wf(),
                other.wf(),
                self.names@.len() > 0,
                i <= self.names@.len(),
                forall|p: Seq<PartView>|
                    self.has_path(p) && (exists|a: int| 0 <= a < i && self.names@[a].0@ == p[0])
                        ==> other.has_path(p),
            decreases self.names@.len() - i,
        {
            let key = &self.names[i].0;
            let ghost c = *self.names@[i as int].1;
            proof {
                c.lemma_has_some_path();
            }
            match other.find(key.name, key.generics) {
                None => {
                    proof {
                        let p0 = choose|p: Seq<PartView>| c.has_path(p);
                        let p = seq![key@] + p0;
                        assert(p.drop_first() =~= p0);
                        self.lemma_child_paths(i as int, p);
                        other.lemma_absent_key(p);
                        assert(self@.contains(p));
                    }
                    return false;
                },
                Some(j) => {
                    proof {
                        assert(decreases_to!(self => self.names));
                        assert(decreases_to!(self.names => self.names@));
                        assert(decreases_to!(self.names@ => self.names@[i as int]));
                    }
                    let sub = self.names[i].1.names_within(&other.names[j].1);
                    let ghost oc = *other.names@[j as int].1;
                    if !sub {
                        proof {
                            let p0 = choose|p: Seq<PartView>| c@.contains(p) && !oc@.contains(p);
                            let p = seq![key@] + p0;
                            assert(p.drop_first() =~= p0);
                            self.lemma_child_paths(i as int, p);
                            other.lemma_child_paths(j as int, p);
                            assert(self@.contains(p));
                        }
                        return false;
                    }
                    proof {
                        assert forall|p: Seq<PartView>|
                            self.has_path(p) && (exists|a: int| 0 <= a < i + 1 && self.names@[a].0@
                                == p[0]) implies other.has_path(p) by {
                            if p[0] == key@ {
                                self.lemma_child_paths(i as int, p);
                                other.lemma_child_paths(j as int, p);
                                assert(c@.contains(p.drop_first()));
                            }
                        }
                    }
                },
            }
            i = i + 1;
        }
        assert forall|p: Seq<PartView>| self@.contains(p) implies other@.contains(p) by {
            assert(self.has_path(p));
        }
        true
    }

    /// Whether both trees hold the same names.
    pub fn same_names(&self, other: &Self) -> (r: bool)
        requires
            self.wf(),
            other.wf(),
        ensures
            r == (self@ == other@),
    {
        let a = self.names_within(other);
        let b = other.names_within(self);
        if a && b {
            assert(self@ =~= other@);
        }
        a && b
    }

    /// This tree with one more first-level part `part`, under which `child` is placed.
    pub fn with_child(self, part: NamePartRef<'a>, child: Self) -> (r: Self)
        requires
            self.wf(),
            child.wf(),
            forall|i: int| 0 <= i < self.width() ==> self.key(i) != part@,
        ensures
            r.wf(),
            forall|p: Seq<PartView>|
                #![trigger r.has_path(p)]
                r.has_path(p) == ((self.width() > 0 && self.has_path(p)) || (p.len() > 0 && p[0]
                    == part@ && child.has_path(p.drop_first()))),
    {
        let ghost t = self;
        let mut names = self.names;
        names.push((part, Box::new(child)));
        let r = QualifiedNameSearchTree { names };
        proof {
            assert forall|a: int, b: int|
                0 <= a < b < r.names@.len() implies r.names@[a].0@ != r.names@[b].0@ by {
                if b < t.names@.len() {
                    assert(r.names@[a] == t.names@[a]);
                    assert(r.names@[b] == t.names@[b]);
                } else {
                    assert(r.names@[a] == t.names@[a]);
                    assert(r.names@[b].0 == part);
                    assert(t.key(a) != part@);
                }
            }
            assert forall|a: int| 0 <= a < r.names@.len() implies (*r.names@[a].1).wf() by {
                if a < t.names@.len() {
                    assert(r.names@[a] == t.names@[a]);
                }
            }
            assert forall|p: Seq<PartView>| r.has_path(p) == ((t.width() > 0 && t.has_path(p)) || (
            p.len() > 0 && p[0] == part@ && child.has_path(p.drop_first()))) by {
                if p.len() > 0 {
                    t.lemma_pushed(r, p);
                }
            }
        }
        r
    }

    /// Removes the name made of the parts of `name` from position `i` on.
    fn remove_from<Q: QualifiedName>(&mut self, name: &Q, i: usize) -> (r: bool)
        requires
            old(self).wf(),
            i <= name.name_view().parts.len(),
        ensures
            final(self).wf(),
            r == old(self).has_path(name.name_view().parts.skip(i as int)),
            forall|p: Seq<PartView>|
                old(self).has_path(p) && is_prefix(p, name.name_view().parts.skip(i as int))
                    ==> final(self)@ == removed_view(old(self)@, p),
            (forall|p: Seq<PartView>|
                old(self).has_path(p) ==> !is_prefix(p, name.name_view().parts.skip(i as int)))
                ==> final(self)@ == old(self)@,
        decreases name.name_view().parts.len() - i,
    {
        let ghost q = name.name_view().parts.skip(i as int);
        let ghost t = *self;
        let n = name.len();
        if i == n {
            proof {
                assert forall|p: Seq<PartView>| t.has_path(p) && is_prefix(p, q) implies self@
                    == removed_view(t@, p) by {
                    assert(p.len() == 0);
                    assert(p =~= Seq::<PartView>::empty());
                    assert forall|x: Seq<PartView>| t@.contains(x) == set![Seq::<PartView>::empty()].contains(x) by {
                        if x.len() == 0 {
                            assert(x =~= Seq::<PartView>::empty());
                        }
                    }
                    assert(t@ =~= set![Seq::<PartView>::empty()]);
                    assert(t@.remove(p) =~= Set::<Seq<PartView>>::empty());
                }
            }
            return self.names.len() == 0;
        }
        let ghost qr = q.drop_first();
        assert(qr =~= name.name_view().parts.skip(i + 1));
        match self.find(name.part_name(i), name.part_generics(i)) {
            None => {
                proof {
                    t.lemma_absent_key(q);
                    assert forall|p: Seq<PartView>| t.has_path(p) && is_prefix(p, q) implies self@
                        == removed_view(t@, p) by {
                        if p.len() > 0 {
                            assert(q.take(p.len() as int)[0] == q[0]);
                            t.lemma_absent_key(p);
                        }
                        assert(p =~= Seq::<PartView>::empty());
                        assert forall|x: Seq<PartView>| t@.contains(x) == set![Seq::<PartView>::empty()].contains(x) by {
                        if x.len() == 0 {
                            assert(x =~= Seq::<PartView>::empty());
                        }
                    }
                    assert(t@ =~= set![Seq::<PartView>::empty()]);
                        assert(t@.remove(p) =~= Set::<Seq<PartView>>::empty());
                    }
                }
                false
            },
            Some(j) => {
                let ghost k = t.names@[j as int].0@;
                let ghost c = *t.names@[j as int].1;
                let deep = self.names[j].1.remove_from(name, i + 1);
                let ghost u = *self;
                let ghost c2 = *u.names@[j as int].1;
                proof {
                    t.lemma_child_paths(j as int, q);
                    assert forall|a: int| 0 <= a < u.names@.len() && a != j implies u.names@[a]
                        == t.names@[a] by {}
                    assert(u.names@[j as int].0 == t.names@[j as int].0);
                }
                if self.names[j].1.names.len() == 0 {
                    self.names.remove(j);
                    proof {
                        let v = *self;
                        assert forall|a: int, b: int|
                            0 <= a < b < v.names@.len() implies v.names@[a].0@ != v.names@[b].0@ by {
                            let a2 = if a < j { a } else { a + 1 };
                            let b2 = if b < j { b } else { b + 1 };
                            assert(v.names@[a] == u.names@[a2]);
                            assert(v.names@[b] == u.names@[b2]);
                        }
                        assert forall|a: int| 0 <= a < v.names@.len() implies (*v.names@[a].1).wf() by {
                            let a2 = if a < j { a } else { a + 1 };
                            assert(v.names@[a] == u.names@[a2]);
                        }
                        assert(v.names@ =~= t.names@.remove(j as int));
                        v.lemma_remove_entry_effect(t, c, c2, j as int, q);
                    }
                } else {
                    proof {
                        self.lemma_replace_entry_effect(t, c, j as int, q);
                    }
                }
                deep
            },
        }
    }

    /// Removes a fully-qualified name (its parts; an alias is ignored) from the tree. Returns
    /// true if it was removed; false if it was absent, and then the tree is left as it was.
    pub fn remove<Q: QualifiedName>(&mut self, name: &Q) -> (r: bool)
        requires
            old(self).wf(),
        ensures
            final(self).wf(),
            r == old(self)@.contains(name.name_view().parts),
            final(self)@ == removed_name_view(old(self)@, name.name_view().parts),
    {
        let ghost q = name.name_view().parts;
        let ghost t = *self;
        assert(q.skip(0) =~= q);
        proof {
            assert forall|p: Seq<PartView>| t@.contains(p) == t.has_path(p) by {}
        }
        if !self.contains(name) {
            return false;
        }
        let r = self.remove_from(name, 0);
        proof {
            assert(q.take(q.len() as int) =~= q);
            assert(t.has_path(q) && is_prefix(q, q));
        }
        r
    }
}

/// Following the parts of `q` from the root of a well-formed tree reaches a subtree holding
/// exactly the continuations of `q` among the held names.
pub proof fn law_node_at_names<'a>(
    t: QualifiedNameSearchTree<'a>,
    q: Seq<PartView>,
    s: QualifiedNameSearchTree<'a>,
)
    requires
        t.wf(),
        t.node_at(q) == Some(s),
    ensures
        forall|r: Seq<PartView>| s@.contains(r) == t@.contains(q + r),
    decreases q.len(),
{
    if q.len() == 0 {
        assert forall|r: Seq<PartView>| s@.contains(r) == t@.contains(q + r) by {
            assert(q + r =~= r);
        }
    } else {
        let i = choose|i: int| 0 <= i < t.names@.len() && t.names@[i].0@ == q[0];
        let c = *t.names@[i].1;
        law_node_at_names(c, q.drop_first(), s);
        assert forall|r: Seq<PartView>| s@.contains(r) == t@.contains(q + r) by {
            assert((q + r).drop_first() =~= q.drop_first() + r);
            t.lemma_child_paths(i, q + r);
            assert(c@.contains(q.drop_first() + r) == c.has_path(q.drop_first() + r));
        }
    }
}

/// A name held by a well-formed tree can be followed from the root through any of its prefixes.
pub proof fn law_prefix_reaches_node<'a>(
    t: QualifiedNameSearchTree<'a>,
    q: Seq<PartView>,
    r: Seq<PartView>,
)
    requires
        t.wf(),
        t@.contains(q + r),
    ensures
        t.node_at(q) is Some,
    decreases q.len(),
{
    if q.len() > 0 {
        assert(t.has_path(q + r));
        assert((q + r)[0] == q[0]);
        let i = choose|i: int|
            0 <= i < t.names@.len() && t.names@[i].0@ == (q + r)[0] && (*t.names@[i].1).has_path(
                (q + r).drop_first(),
            );
        let c = *t.names@[i].1;
        assert((q + r).drop_first() =~= q.drop_first() + r);
        assert(c@.contains(q.drop_first() + r));
        let w = choose|w: int| 0 <= w < t.names@.len() && t.names@[w].0@ == q[0];
        assert(w == i);
        law_prefix_reaches_node(c, q.drop_first(), r);
    }
}

/// A fresh name is held after it is inserted.
pub proof fn law_insert_then_held(names: Set<Seq<PartView>>, q: Seq<PartView>)
    requires
        fresh_in(names, q),
    ensures
        inserted_view(names, q).contains(q),
{
}

/// Inserting a name that is already held changes nothing and reports no insertion.
pub proof fn law_reinsert_held(names: Set<Seq<PartView>>, q: Seq<PartView>)
    requires
        names.contains(q),
    ensures
        !fresh_in(names, q),
        inserted_view(names, q) == names,
{
    assert(q.take(q.len() as int) =~= q);
}

/// In a well-formed tree, following `m` from the root reaches a subtree exactly when some held
/// name starts with `m`.
pub proof fn law_node_at_reached<'a>(t: QualifiedNameSearchTree<'a>, m: Seq<PartView>)
    requires
        t.wf(),
    ensures
        t.node_at(m) is Some <==> exists|p: Seq<PartView>| t@.contains(p) && is_prefix(m, p),
    decreases m.len(),
{
    if m.len() == 0 {
        t.lemma_has_some_path();
        let p = choose|p: Seq<PartView>| t.has_path(p);
        assert(t@.contains(p));
        assert(p.take(0) =~= m);
        assert(is_prefix(m, p));
        assert(t.node_at(m) is Some);
    } else if exists|i: int| 0 <= i < t.names@.len() && t.names@[i].0@ == m[0] {
        let i = choose|i: int| 0 <= i < t.names@.len() && t.names@[i].0@ == m[0];
        let c = *t.names@[i].1;
        assert(c.wf());
        law_node_at_reached(c, m.drop_first());
        t.lemma_node_at_step(m);
        assert(t.node_at(m) == c.node_at(m.drop_first()));
        if t.node_at(m) is Some {
            let p2 = choose|p2: Seq<PartView>| c@.contains(p2) && is_prefix(m.drop_first(), p2);
            let p = seq![m[0]] + p2;
            assert(p.drop_first() =~= p2);
            t.lemma_child_paths(i, p);
            assert(t@.contains(p));
            assert(p.take(m.len() as int) =~= m) by {
                assert(p2.take(m.len() - 1) =~= m.drop_first());
                assert(m =~= seq![m[0]] + m.drop_first());
            }
            assert(m.len() <= p.len());
            assert(is_prefix(m, p));
            assert(t@.contains(p) && is_prefix(m, p));
        }
        if exists|p: Seq<PartView>| t@.contains(p) && is_prefix(m, p) {
            let p = choose|p: Seq<PartView>| t@.contains(p) && is_prefix(m, p);
            assert(p[0] == m[0]) by {
                assert(p.take(m.len() as int)[0] == p[0]);
            }
            t.lemma_child_paths(i, p);
            assert(c@.contains(p.drop_first()));
            assert(p.drop_first().take(m.len() - 1) =~= m.drop_first()) by {
                assert(p.take(m.len() as int) == m);
            }
            assert(is_prefix(m.drop_first(), p.drop_first()));
            assert(t.node_at(m) is Some);
        }
        assert(t.node_at(m) is Some ==> exists|p: Seq<PartView>| t@.contains(p) && is_prefix(m, p));
    } else {
        t.lemma_node_at_step(m);
        if exists|p: Seq<PartView>| t@.contains(p) && is_prefix(m, p) {
            let p = choose|p: Seq<PartView>| t@.contains(p) && is_prefix(m, p);
            assert(p[0] == m[0]) by {
                assert(p.take(m.len() as int)[0] == p[0]);
            }
            t.lemma_keys_absent(m);
        }
    }
}

/// Following `a + b` from the root reaches what following `b` reaches from the subtree that
/// `a` reaches, and nothing where `a` reaches nothing.
pub proof fn law_node_at_joined<'a>(t: QualifiedNameSearchTree<'a>, a: Seq<PartView>, b: Seq<PartView>)
    ensures
        t.node_at(a + b) == match t.node_at(a) {
            Some(s) => s.node_at(b),
            None => None,
        },
    decreases a.len(),
{
    if a.len() == 0 {
        assert(a + b =~= b);
    } else {
        assert((a + b)[0] == a[0]);
        assert((a + b).drop_first() =~= a.drop_first() + b);
        if exists|i: int| 0 <= i < t.names@.len() && t.names@[i].0@ == a[0] {
            let i = choose|i: int| 0 <= i < t.names@.len() && t.names@[i].0@ == a[0];
            law_node_at_joined(*t.names@[i].1, a.drop_first(), b);
            t.lemma_node_at_step(a);
            t.lemma_node_at_step(a + b);
        } else {
            t.lemma_node_at_step(a);
            t.lemma_node_at_step(a + b);
        }
    }
}

/// Following the empty name reaches the tree itself; following a one-part name reaches the
/// subtree under that part of the first level, and nothing where the first level lacks it.
pub proof fn law_node_at_one_part<'a>(t: QualifiedNameSearchTree<'a>, k: PartView)
    requires
        t.wf(),
    ensures
        t.node_at(Seq::empty()) == Some(t),
        forall|i: int| 0 <= i < t.width() && t.key(i) == k ==> t.node_at(seq![k]) == Some(t.child(i)),
        (forall|i: int| 0 <= i < t.width() ==> t.key(i) != k) ==> t.node_at(seq![k]) is None,
{
    let q = seq![k];
    assert(q.drop_first() =~= Seq::<PartView>::empty());
    t.lemma_node_at_step(q);
    assert forall|i: int| 0 <= i < t.width() && t.key(i) == k implies t.node_at(seq![k]) == Some(t.child(i)) by {
        let j = choose|j: int| 0 <= j < t.names@.len() && t.names@[j].0@ == q[0];
        assert(t.names@[i].0@ == q[0]);
        assert(i == j);
    }
    if forall|i: int| 0 <= i < t.width() ==> t.key(i) != k {
        assert forall|i: int| 0 <= i < t.names@.len() implies t.names@[i].0@ != q[0] by {
            assert(t.key(i) != k);
        }
    }
}

/// After an insertion of `q` into a well-formed tree, following a name `m` from the root
/// reaches a subtree exactly when it did before or `m` is a prefix of `q`.
pub proof fn law_insert_reaches<'a>(
    before: QualifiedNameSearchTree<'a>,
    after: QualifiedNameSearchTree<'a>,
    q: Seq<PartView>,
    m: Seq<PartView>,
)
    requires
        before.wf(),
        after.wf(),
        after@ == inserted_view(before@, q),
    ensures
        after.node_at(m) is Some <==> (before.node_at(m) is Some || is_prefix(m, q)),
{
    law_node_at_reached(before, m);
    law_node_at_reached(after, m);
    let names = before@;
    if fresh_in(names, q) {
        assert(after@.contains(q));
        if exists|p: Seq<PartView>| names.contains(p) && is_prefix(m, p) {
            let p = choose|p: Seq<PartView>| names.contains(p) && is_prefix(m, p);
            if is_proper_prefix(p, q) {
                QualifiedNameSearchTree::lemma_prefix_trans(m, p, q);
            } else {
                assert(after@.contains(p));
            }
        }
        if is_prefix(m, q) {
            assert(after@.contains(q));
        }
    } else {
        if is_prefix(m, q) {
            let p = choose|p: Seq<PartView>| names.contains(p) && is_prefix(q, p);
            QualifiedNameSearchTree::lemma_prefix_trans(m, q, p);
            assert(names.contains(p) && is_prefix(m, p));
        }
    }
}

/// Removing a name right after inserting it into a well-formed tree that reached no subtree by
/// it gives back the names held before, when no non-empty held name is a proper prefix of it
/// (the empty tree, which holds the empty name, included).
pub proof fn law_remove_undoes_insert<'a>(t: QualifiedNameSearchTree<'a>, q: Seq<PartView>)
    requires
        t.wf(),
        q.len() > 0,
        t.node_at(q) is None,
        forall|p: Seq<PartView>| t@.contains(p) && is_proper_prefix(p, q) ==> p.len() == 0,
    ensures
        fresh_in(t@, q),
        removed_name_view(inserted_view(t@, q), q) == t@,
{
    law_node_at_reached(t, q);
    let names = inserted_view(t@, q);
    assert(q.take(q.len() as int) =~= q);
    assert(!t@.contains(q));
    if t@.contains(Seq::<PartView>::empty()) {
        t.lemma_empty_path();
        t.lemma_only_empty();
        assert(Seq::<PartView>::empty().len() <= q.len());
        assert(is_prefix(Seq::<PartView>::empty(), q)) by {
            assert(q.take(0) =~= Seq::<PartView>::empty());
        }
        assert(names =~= set![q]) by {
            assert forall|p: Seq<PartView>| names.contains(p) <==> p == q by {
                if t@.contains(p) {
                    assert(p =~= Seq::<PartView>::empty());
                }
            }
        }
        assert(names.remove(q) =~= Set::<Seq<PartView>>::empty());
        assert(t@ =~= set![Seq::<PartView>::empty()]) by {
            assert forall|p: Seq<PartView>| t@.contains(p) <==> p == Seq::<PartView>::empty() by {
                if t@.contains(p) {
                    assert(p =~= Seq::<PartView>::empty());
                }
            }
        }
    } else {
        assert(names =~= t@.insert(q)) by {
            assert forall|p: Seq<PartView>| t@.contains(p) implies !is_proper_prefix(p, q) by {
                if is_proper_prefix(p, q) {
                    assert(p.len() == 0);
                    assert(p =~= Seq::<PartView>::empty());
                }
            }
        }
        assert(names.contains(q));
        t.lemma_has_some_path();
        let w = choose|w: Seq<PartView>| t.has_path(w);
        assert(t@.contains(w));
        assert(names.remove(q).contains(w));
        assert(names.remove(q) =~= t@);
    }
}

/// A removed non-empty name is no longer held by a well-formed tree.
pub proof fn law_removed_not_held<'a>(t: QualifiedNameSearchTree<'a>, q: Seq<PartView>)
    requires
        t.wf(),
        q.len() > 0,
    ensures
        !removed_name_view(t@, q).contains(q),
{
    if t@.contains(q) {
        assert(q != Seq::<PartView>::empty()) by {
            assert(q.len() != Seq::<PartView>::empty().len());
        }
        assert(!set![Seq::<PartView>::empty()].contains(q));
        assert(!t@.remove(q).contains(q));
    }
}

} // verus!
