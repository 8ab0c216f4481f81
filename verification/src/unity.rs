//! Reading Unity text assets: the identifiers that the lines of a scene or prefab refer to, and
//! the GUID that a `.meta` file gives its asset.

use crate::asset::{relation_views, Asset, AssetView, Relation, RelationKind, RelationView};
use crate::id::{parse_uuid, uuid_parse, Id, IdView};
use crate::loc::{
    is_document_start, string_next, LocStringParser, StringView, LOCALIZED_STRING_LINE,
    LOCALIZED_TEXT_SCRIPT_LINE, MONO_BEHAVIOUR_LINE, UNLOCALIZED_LINE,
};
use crate::patterns::no_newline;
use crate::patterns::{
    captured, first_capture, regex_first_capture, GUID_PATTERN, META_GUID_PATTERN,
};
use crate::text::string_views;
use vstd::prelude::*;

verus! {

/// The GUID that a line of a Unity text asset refers to: the first 32 lowercase hex digits
/// between word boundaries, read as a UUID.
pub open spec fn unity_line_guid(line: Seq<char>) -> Option<u128> {
    match regex_first_capture(GUID_PATTERN@, line) {
        Some(g) => uuid_parse(g),
        None => None,
    }
}

/// The GUID that a line of a `.meta` file gives: `guid: ` followed by 32 lowercase hex digits.
pub open spec fn meta_line_guid(line: Seq<char>) -> Option<u128> {
    match regex_first_capture(META_GUID_PATTERN@, line) {
        Some(g) => uuid_parse(g),
        None => None,
    }
}

/// The GUID of the first line of a `.meta` file that gives one.
pub open spec fn first_meta_guid(lines: Seq<Seq<char>>) -> Option<u128>
    decreases lines.len(),
{
    if lines.len() == 0 {
        None
    } else {
        match meta_line_guid(lines[0]) {
            Some(g) => Some(g),
            None => first_meta_guid(lines.drop_first()),
        }
    }
}

/// The GUID of one line of a `.meta` file (see `meta_line_guid`).
pub fn meta_guid_of_line(line: &str) -> (r: Option<u128>)
    ensures
        r == meta_line_guid(line@),
{
    match first_capture(META_GUID_PATTERN, line) {
        Some(g) => parse_uuid(g.as_str()),
        None => None,
    }
}

/// The GUID that a `.meta` file with these lines gives its asset (see `first_meta_guid`).
pub fn meta_guid(lines: &Vec<String>) -> (r: Option<u128>)
    ensures
        r == first_meta_guid(string_views(lines@)),
{
    let ghost all = string_views(lines@);
    assert(all.skip(0) =~= all);
    let mut i: usize = 0;
    while i < lines.len()
        invariant
            i <= lines@.len(),
            all == string_views(lines@),
            first_meta_guid(all) == first_meta_guid(all.skip(i as int)),
        decreases lines@.len() - i,
    {
        proof {
            assert(all.skip(i as int)[0] == lines@[i as int]@);
            assert(all.skip(i as int).drop_first() =~= all.skip(i + 1));
        }
        match meta_guid_of_line(lines[i].as_str()) {
            Some(g) => {
                return Some(g);
            },
            None => {},
        }
        i = i + 1;
    }
    proof {
        assert(all.skip(i as int).len() == 0);
    }
    None
}

/// The state of a reader of a Unity text asset: the localized-text reader, and the identifiers
/// found so far, each once.
#[derive(Debug)]
pub struct UnityScan {
    parser: LocStringParser,
    found: Vec<Id>,
}

/// The abstract contents of a list of identifiers.
pub open spec fn id_views(v: Seq<Id>) -> Seq<IdView> {
    v.map_values(|id: Id| id@)
}

/// The reader state after a line that left the localized-text reader in state `s`: a found key
/// starts the reader over.
pub open spec fn scan_state_after(s: StringView) -> StringView {
    match s {
        StringView::LocStringKey(_) => StringView::Start,
        _ => s,
    }
}

/// The identifiers that a line adds, where the localized-text reader reached state `s` on it: a
/// found localization key, and the GUID the line refers to.
pub open spec fn scan_found(s: StringView, line: Seq<char>) -> Set<IdView> {
    let keys = match s {
        StringView::LocStringKey(id) => set![id],
        _ => Set::empty(),
    };
    match unity_line_guid(line) {
        Some(g) => keys.insert(IdView::Guid(g)),
        None => keys,
    }
}

proof fn lemma_uses_insert(s: Set<IdView>, x: IdView)
    ensures
        s.insert(x).map(|id: IdView| RelationView { kind: RelationKind::Uses, target: id }) == s.map(
            |id: IdView| RelationView { kind: RelationKind::Uses, target: id },
        ).insert(RelationView { kind: RelationKind::Uses, target: x }),
{
    let f = |id: IdView| RelationView { kind: RelationKind::Uses, target: id };
    let lhs = s.insert(x).map(f);
    let rhs = s.map(f).insert(f(x));
    assert forall|r: RelationView| lhs.contains(r) implies rhs.contains(r) by {
        let a = choose|a: IdView| s.insert(x).contains(a) && r == f(a);
        if a != x {
            assert(s.contains(a));
        }
    }
    assert forall|r: RelationView| rhs.contains(r) implies lhs.contains(r) by {
        if r == f(x) {
            assert(s.insert(x).contains(x));
        } else {
            let a = choose|a: IdView| s.contains(a) && r == f(a);
            assert(s.insert(x).contains(a));
        }
    }
    assert(lhs =~= rhs);
}

impl UnityScan {
    /// The state of the localized-text reader.
    pub closed spec fn state(&self) -> StringView {
        self.parser@
    }

    /// The identifiers found so far.
    pub closed spec fn found_ids(&self) -> Set<IdView> {
        id_views(self.found@).to_set()
    }

    /// A reader at the start of a file.
    pub fn new() -> (r: UnityScan)
        ensures
            r.state() == StringView::Start,
            r.found_ids() == Set::<IdView>::empty(),
    {
        let r = UnityScan { parser: LocStringParser::Start, found: Vec::new() };
        assert(id_views(r.found@).to_set() =~= Set::empty());
        r
    }

    fn note(&mut self, id: Id)
        ensures
            final(self).parser == old(self).parser,
            final(self).found_ids() == old(self).found_ids().insert(id@),
    {
        let mut i: usize = 0;
        while i < self.found.len()
            invariant
                i <= self.found@.len(),
                self.found@ == old(self).found@,
                self.parser == old(self).parser,
            decreases self.found@.len() - i,
        {
            if self.found[i].same(&id) {
                proof {
                    assert(id_views(self.found@)[i as int] == id@);
                    assert(self.found_ids().insert(id@) =~= self.found_ids());
                }
                return;
            }
            i = i + 1;
        }
        let ghost before = id_views(self.found@);
        let ghost v = id@;
        self.found.push(id);
        proof {
            assert(id_views(self.found@) =~= before.push(v));
            before.lemma_push_to_set_commute(v);
        }
    }

    /// Reads one line: feeds it to the localized-text reader, notes the key it finds (and starts
    /// it over) and the GUID the line refers to.
    pub fn update(&mut self, line: &str)
        ensures
            final(self).state() == scan_state_after(string_next(old(self).state(), line@)),
            final(self).found_ids() == old(self).found_ids().union(
                scan_found(string_next(old(self).state(), line@), line@),
            ),
            (final(self).state(), final(self).found_ids()) == scan_lines(
                old(self).state(),
                old(self).found_ids(),
                seq![line@],
            ),
    {
        let ghost f0 = self.found_ids();
        let ghost s0 = self.parser@;
        let ghost s1 = string_next(self.parser@, line@);
        proof {
            let one = seq![line@];
            assert(one.drop_first() =~= Seq::<Seq<char>>::empty());
            assert(one[0] == line@);
            assert(scan_lines(scan_state_after(s1), f0.union(scan_found(s1, line@)), Seq::<Seq<char>>::empty())
                == (scan_state_after(s1), f0.union(scan_found(s1, line@))));
            assert(scan_lines(s0, f0, one) == (scan_state_after(s1), f0.union(scan_found(s1, line@))));
        }
        let mut parser = LocStringParser::Start;
        std::mem::swap(&mut parser, &mut self.parser);
        let next = parser.update(line);
        let ghost keys: Set<IdView> = match s1 {
            StringView::LocStringKey(id) => set![id],
            _ => Set::empty(),
        };
        match next {
            LocStringParser::LocStringKey(id) => {
                self.note(id);
                self.parser = LocStringParser::Start;
            },
            other => {
                self.parser = other;
            },
        }
        assert(self.found_ids() == f0.union(keys)) by {
            if s1 is LocStringKey {
                assert(f0.insert(s1->0) =~= f0.union(keys));
            } else {
                assert(f0 =~= f0.union(keys));
            }
        }
        let ghost f1 = self.found_ids();
        match first_capture(GUID_PATTERN, line) {
            Some(g) => match parse_uuid(g.as_str()) {
                Some(u) => {
                    self.note(Id::Guid(u));
                    assert(f1.insert(IdView::Guid(u)) =~= f0.union(keys.insert(IdView::Guid(u))));
                },
                None => {},
            },
            None => {},
        }
    }

    /// The identifiers found so far.
    pub fn found(&self) -> (r: &Vec<Id>)
        ensures
            id_views(r@).to_set() == self.found_ids(),
    {
        &self.found
    }

    /// Records every identifier found so far as used by `asset`.
    pub fn apply(&self, asset: &mut Asset)
        requires
            old(asset).wf(),
        ensures
            final(asset).wf(),
            final(asset)@ == (AssetView {
                relations: old(asset)@.relations.union(
                    self.found_ids().map(|id: IdView| RelationView { kind: RelationKind::Uses, target: id }),
                ),
                ..old(asset)@
            }),
    {
        let ghost fv = id_views(self.found@);
        let mut i: usize = 0;
        proof {
            assert(fv.take(0).to_set().map(|id: IdView| RelationView { kind: RelationKind::Uses, target: id }) =~= Set::empty());
            assert(old(asset)@.relations.union(Set::empty()) =~= old(asset)@.relations);
        }
        while i < self.found.len()
            invariant
                i <= self.found@.len(),
                fv == id_views(self.found@),
                asset.wf(),
                asset@ == (AssetView {
                    relations: old(asset)@.relations.union(
                        fv.take(i as int).to_set().map(|id: IdView| RelationView { kind: RelationKind::Uses, target: id }),
                    ),
                    ..old(asset)@
                }),
            decreases self.found@.len() - i,
        {
            let ghost before = asset@;
            asset.insert_relation(Relation::Uses(self.found[i].clone()));
            proof {
                let f = |id: IdView| RelationView { kind: RelationKind::Uses, target: id };
                assert(fv.take(i + 1) =~= fv.take(i as int).push(fv[i as int]));
                fv.take(i as int).lemma_push_to_set_commute(fv[i as int]);
                lemma_uses_insert(fv.take(i as int).to_set(), fv[i as int]);
                assert(asset@.relations =~= old(asset)@.relations.union(fv.take(i + 1).to_set().map(f)));
            }
            i = i + 1;
        }
        proof {
            assert(fv.take(i as int) =~= fv);
        }
    }
}

/// The reader state and the identifiers found after reading `lines` from state `s`, having
/// found `found` before (each line read as `UnityScan::update` reads it).
pub open spec fn scan_lines(s: StringView, found: Set<IdView>, lines: Seq<Seq<char>>) -> (
    StringView,
    Set<IdView>,
)
    decreases lines.len(),
{
    if lines.len() == 0 {
        (s, found)
    } else {
        let n = string_next(s, lines[0]);
        scan_lines(scan_state_after(n), found.union(scan_found(n, lines[0])), lines.drop_first())
    }
}

/// The lines of a localized text component with key `key`, after the document header `header`.
pub open spec fn localized_text_block(header: Seq<char>, key: Seq<char>) -> Seq<Seq<char>> {
    seq![
        header,
        MONO_BEHAVIOUR_LINE@,
        LOCALIZED_TEXT_SCRIPT_LINE@,
        LOCALIZED_STRING_LINE@,
        "    key: "@ + key,
    ]
}

/// Whether the reader in state `s` is ready for a localized text component: it has neither
/// found a key nor found that the string is not localized.
pub open spec fn scan_ready(s: StringView) -> bool {
    !(s is LocStringKey) && !(s is LocStringNoKey)
}

/// After any line the scan's reader does not rest on a found key: it starts over, so a key
/// found on one line never keeps the next localized text from being read.
pub proof fn law_scan_never_rests_on_key(s: StringView, line: Seq<char>)
    ensures
        !(scan_state_after(string_next(s, line)) is LocStringKey),
        string_next(s, line) is LocStringKey ==> scan_state_after(string_next(s, line))
            == StringView::Start,
{
}

/// Reading one more line keeps every identifier found so far.
proof fn lemma_scan_keeps(s: StringView, found: Set<IdView>, lines: Seq<Seq<char>>)
    ensures
        found.subset_of(scan_lines(s, found, lines).1),
    decreases lines.len(),
{
    if lines.len() > 0 {
        let n = string_next(s, lines[0]);
        lemma_scan_keeps(scan_state_after(n), found.union(scan_found(n, lines[0])), lines.drop_first());
    }
}

/// Reading `a` then `b` is reading `a + b`.
proof fn lemma_scan_append(s: StringView, found: Set<IdView>, a: Seq<Seq<char>>, b: Seq<Seq<char>>)
    ensures
        scan_lines(s, found, a + b) == scan_lines(scan_lines(s, found, a).0, scan_lines(s, found, a).1, b),
    decreases a.len(),
{
    if a.len() == 0 {
        assert(a + b =~= b);
    } else {
        assert((a + b)[0] == a[0]);
        assert((a + b).drop_first() =~= a.drop_first() + b);
        let n = string_next(s, a[0]);
        lemma_scan_append(scan_state_after(n), found.union(scan_found(n, a[0])), a.drop_first(), b);
    }
}

/// A localized text component read from a ready reader yields its key, and leaves the reader
/// at the start again.
proof fn lemma_block(s: StringView, found: Set<IdView>, header: Seq<char>, key: Seq<char>)
    requires
        scan_ready(s),
        is_document_start(header),
        no_newline(key),
    ensures
        scan_lines(s, found, localized_text_block(header, key)).0 == StringView::Start,
        scan_lines(s, found, localized_text_block(header, key)).1.contains(IdView::Loc(key)),
{
    reveal_strlit("---");
    reveal_strlit("MonoBehaviour:");
    reveal_strlit("  m_Script: {fileID: 11500000, guid: 05503c2c5cf7b7f45bec1113802f99a0, type: 3}");
    reveal_strlit("  localizedString:");
    reveal_strlit("    keepUnlocalized: 1");
    reveal_strlit("    key: ");
    let block = localized_text_block(header, key);
    let l0 = header;
    let l1 = MONO_BEHAVIOUR_LINE@;
    let l2 = LOCALIZED_TEXT_SCRIPT_LINE@;
    let l3 = LOCALIZED_STRING_LINE@;
    let l4 = "    key: "@ + key;
    let kp = "    key: "@;
    assert(header.take(3)[0] == '-');
    assert(header[0] == '-');
    // No line but the last is a key line or the not-localized line, and only the first starts a
    // document.
    assert(l0 != l3 && l0 != l2 && l0 != l1 && l0 != UNLOCALIZED_LINE@) by {
        assert(l1[0] == 'M');
        assert(l2[0] == ' ');
        assert(l3[0] == ' ');
        assert(UNLOCALIZED_LINE@[0] == ' ');
    }
    assert(!(kp.len() <= l0.len() && l0.take(kp.len() as int) == kp)) by {
        if kp.len() <= l0.len() && l0.take(kp.len() as int) == kp {
            assert(l0.take(kp.len() as int)[0] == l0[0]);
        }
    }
    assert(!(kp.len() <= l1.len() && l1.take(kp.len() as int) == kp)) by {
        if kp.len() <= l1.len() && l1.take(kp.len() as int) == kp {
            assert(l1.take(kp.len() as int)[0] == l1[0]);
        }
    }
    assert(!(kp.len() <= l2.len() && l2.take(kp.len() as int) == kp)) by {
        if kp.len() <= l2.len() && l2.take(kp.len() as int) == kp {
            assert(l2.take(kp.len() as int)[2] == l2[2]);
        }
    }
    assert(!(kp.len() <= l3.len() && l3.take(kp.len() as int) == kp)) by {
        if kp.len() <= l3.len() && l3.take(kp.len() as int) == kp {
            assert(l3.take(kp.len() as int)[2] == l3[2]);
        }
    }
    assert(l1 != l2 && l1 != l3 && l2 != l3 && l1 != UNLOCALIZED_LINE@ && l2 != UNLOCALIZED_LINE@
        && l3 != UNLOCALIZED_LINE@) by {
        assert(l1[0] != l2[0]);
        assert(l1[0] != l3[0]);
        assert(l2[2] != l3[2]);
        assert(l2[2] != UNLOCALIZED_LINE@[2]);
        assert(l3[4] != UNLOCALIZED_LINE@[4]);
    }
    assert(!is_document_start(l1) && !is_document_start(l2) && !is_document_start(l3)) by {
        assert(l1.take(3)[0] == l1[0]);
        assert(l2.take(3)[0] == l2[0]);
        assert(l3.take(3)[0] == l3[0]);
    }
    assert(l4.take(kp.len() as int) =~= kp);
    assert(l4.skip(kp.len() as int) =~= key);
    assert(l4 != UNLOCALIZED_LINE@) by {
        assert(l4[6] == kp[6]);
        assert(kp[6] != UNLOCALIZED_LINE@[6]);
    }
    let t1 = block.drop_first();
    let t2 = t1.drop_first();
    let t3 = t2.drop_first();
    let t4 = t3.drop_first();
    assert(block[0] == l0);
    assert(t1 =~= seq![l1, l2, l3, l4]);
    assert(t2 =~= seq![l2, l3, l4]);
    assert(t3 =~= seq![l3, l4]);
    assert(t4 =~= seq![l4]);
    assert(t4.drop_first() =~= Seq::<Seq<char>>::empty());
    let s1 = scan_state_after(string_next(s, l0));
    let s2 = scan_state_after(string_next(s1, l1));
    let s3 = scan_state_after(string_next(s2, l2));
    let s4 = scan_state_after(string_next(s3, l3));
    assert(s4 == StringView::LocalizedString);
    assert(string_next(s4, l4) == StringView::LocStringKey(IdView::Loc(key)));
    lemma_scan_keeps(s, found, block);
    let f1 = found.union(scan_found(string_next(s, l0), l0));
    let f2 = f1.union(scan_found(string_next(s1, l1), l1));
    let f3 = f2.union(scan_found(string_next(s2, l2), l2));
    let f4 = f3.union(scan_found(string_next(s3, l3), l3));
    let f5 = f4.union(scan_found(string_next(s4, l4), l4));
    assert(scan_lines(s, found, block) == scan_lines(s1, f1, t1));
    assert(scan_lines(s1, f1, t1) == scan_lines(s2, f2, t2));
    assert(scan_lines(s2, f2, t2) == scan_lines(s3, f3, t3));
    assert(scan_lines(s3, f3, t3) == scan_lines(s4, f4, t4));
    assert(scan_lines(s4, f4, t4) == scan_lines(StringView::Start, f5, t4.drop_first()));
    assert(f5.contains(IdView::Loc(key)));
}

/// A scan over a file with one localized text component after another finds the key of each:
/// reading two components, from any reader that is ready (at the start of a file in
/// particular), finds both keys.
pub proof fn law_scan_finds_every_key(
    s: StringView,
    found: Set<IdView>,
    h1: Seq<char>,
    k1: Seq<char>,
    h2: Seq<char>,
    k2: Seq<char>,
)
    requires
        scan_ready(s),
        is_document_start(h1),
        is_document_start(h2),
        no_newline(k1),
        no_newline(k2),
    ensures
        scan_lines(s, found, localized_text_block(h1, k1) + localized_text_block(h2, k2)).1.contains(
            IdView::Loc(k1),
        ),
        scan_lines(s, found, localized_text_block(h1, k1) + localized_text_block(h2, k2)).1.contains(
            IdView::Loc(k2),
        ),
{
    let a = localized_text_block(h1, k1);
    let b = localized_text_block(h2, k2);
    lemma_scan_append(s, found, a, b);
    lemma_block(s, found, h1, k1);
    let mid = scan_lines(s, found, a);
    lemma_block(mid.0, mid.1, h2, k2);
    lemma_scan_keeps(mid.0, mid.1, b);
}

} // verus!
