//! Localized strings: the keys that a C# file looks up in the string cache, and the strings
//! that a resource file defines.

use crate::asset::{Asset, AssetView, Relation, RelationKind, RelationView};
use crate::asset_type::AssetType;
use crate::id::{Id, IdView};
use crate::structure::{
    captures_fit, first_capture_node, first_node, lemma_first_node_fits, match_captures, Capture,
    QueryMatch,
};
use crate::syntax::{node_text, range_text, NodeKind, SyntaxTree};
use crate::text::string_views;
use vstd::prelude::*;

verus! {

/// The key named by the string literal at node `n`: the text between its quotes, when the node
/// is a string literal whose text can be read.
pub open spec fn literal_key(t: &SyntaxTree, n: int) -> Option<Seq<char>> {
    if t.nodes@[n].kind == NodeKind::StringLiteral && node_text(t, n) is Some {
        range_text(t, t.nodes@[n].start + 1, t.nodes@[n].end - 1)
    } else {
        None
    }
}

/// The keys looked up by the matches `ms` of the lookup query, in order: for each match, the
/// key of its first capture with index `key_capture` (see `literal_key`).
pub open spec fn looked_up_keys(t: &SyntaxTree, ms: Seq<Seq<Capture>>, key_capture: u32) -> Seq<
    Seq<char>,
>
    decreases ms.len(),
{
    if ms.len() == 0 {
        Seq::empty()
    } else {
        let rest = looked_up_keys(t, ms.drop_last(), key_capture);
        match first_node(ms.last(), key_capture) {
            Some(n) => match literal_key(t, n as int) {
                Some(k) => rest.push(k),
                None => rest,
            },
            None => rest,
        }
    }
}

/// The keys of lookups one after another are the keys of the first ones followed by those of
/// the others: each lookup contributes its own key, whatever came before it.
pub proof fn law_lookup_keys_concat(t: &SyntaxTree, a: Seq<Seq<Capture>>, b: Seq<Seq<Capture>>, key_capture: u32)
    ensures
        looked_up_keys(t, a + b, key_capture) == looked_up_keys(t, a, key_capture) + looked_up_keys(
            t,
            b,
            key_capture,
        ),
    decreases b.len(),
{
    if b.len() == 0 {
        assert(a + b =~= a);
        assert(looked_up_keys(t, a, key_capture) + Seq::<Seq<char>>::empty() =~= looked_up_keys(t, a, key_capture));
    } else {
        assert((a + b).drop_last() =~= a + b.drop_last());
        assert((a + b).last() == b.last());
        law_lookup_keys_concat(t, a, b.drop_last(), key_capture);
        let ka = looked_up_keys(t, a, key_capture);
        let kb = looked_up_keys(t, b.drop_last(), key_capture);
        match first_node(b.last(), key_capture) {
            Some(n) => match literal_key(t, n as int) {
                Some(k) => {
                    assert((ka + kb).push(k) =~= ka + kb.push(k));
                },
                None => {},
            },
            None => {},
        }
    }
}

/// Every lookup whose key is a string literal contributes the key between its quotes: the key
/// is among the keys looked up, so `find_locstrings` records a use of it.
pub proof fn law_every_literal_lookup_counts(t: &SyntaxTree, ms: Seq<Seq<Capture>>, key_capture: u32, i: int)
    requires
        0 <= i < ms.len(),
        first_node(ms[i], key_capture) is Some,
        literal_key(t, first_node(ms[i], key_capture).unwrap() as int) is Some,
    ensures
        looked_up_keys(t, ms, key_capture).contains(
            literal_key(t, first_node(ms[i], key_capture).unwrap() as int).unwrap(),
        ),
        uses_of_keys(looked_up_keys(t, ms, key_capture)).contains(
            RelationView {
                kind: RelationKind::Uses,
                target: IdView::Loc(literal_key(t, first_node(ms[i], key_capture).unwrap() as int).unwrap()),
            },
        ),
{
    let k = literal_key(t, first_node(ms[i], key_capture).unwrap() as int).unwrap();
    let a = ms.take(i);
    let b = ms.skip(i);
    assert(ms =~= a + b);
    law_lookup_keys_concat(t, a, b, key_capture);
    let one = seq![ms[i]];
    let rest = b.drop_first();
    assert(b =~= one + rest);
    law_lookup_keys_concat(t, one, rest, key_capture);
    assert(one.drop_last() =~= Seq::<Seq<Capture>>::empty());
    assert(one.last() == ms[i]);
    assert(looked_up_keys(t, one.drop_last(), key_capture) =~= Seq::<Seq<char>>::empty());
    assert(looked_up_keys(t, one, key_capture) == looked_up_keys(t, one.drop_last(), key_capture).push(k));
    assert(looked_up_keys(t, one, key_capture) =~= seq![k]);
    let all = looked_up_keys(t, ms, key_capture);
    let pos = looked_up_keys(t, a, key_capture).len() as int;
    assert(all[pos] == k);
    let f = |x: Seq<char>| RelationView { kind: RelationKind::Uses, target: IdView::Loc(x) };
    assert(all.map_values(f)[pos] == f(k));
    assert(all.map_values(f).contains(f(k)));
}

/// The relations towards the localized strings with keys `keys`.
pub open spec fn uses_of_keys(keys: Seq<Seq<char>>) -> Set<RelationView> {
    keys.map_values(|k: Seq<char>| RelationView { kind: RelationKind::Uses, target: IdView::Loc(k) }).to_set()
}

/// Whether each match of `ms` has a capture with index `key_capture`, every capture names a
/// node of `t`, and each string literal that is captured as a key spans at least its two quotes.
pub open spec fn lookups_fit(t: &SyntaxTree, ms: Seq<Seq<Capture>>, key_capture: u32) -> bool {
    &&& forall|i: int| 0 <= i < ms.len() ==> captures_fit(t, #[trigger] ms[i])
    &&& forall|i: int|
        0 <= i < ms.len() ==> match first_node(#[trigger] ms[i], key_capture) {
            Some(n) => t.nodes@[n as int].kind == NodeKind::StringLiteral ==> t.nodes@[n as int].start
                + 2 <= t.nodes@[n as int].end,
            None => false,
        }
}

/// Adds to `asset` a `Uses` relation towards each localized string that the lookups `matches`
/// name by a literal key (see `looked_up_keys`); a key captured as anything but a string literal
/// is passed over.
pub fn find_locstrings(
    t: &SyntaxTree,
    matches: &Vec<QueryMatch>,
    key_capture: u32,
    asset: &mut Asset,
)
    requires
        t.wf(),
        old(asset).wf(),
        lookups_fit(t, match_captures(matches@), key_capture),
    ensures
        final(asset).wf(),
        final(asset)@ == (AssetView {
            relations: old(asset)@.relations.union(
                uses_of_keys(looked_up_keys(t, match_captures(matches@), key_capture)),
            ),
            ..old(asset)@
        }),
{
    let ghost ms = match_captures(matches@);
    let ghost start = asset@;
    let mut i: usize = 0;
    proof {
        assert(ms.take(0) =~= Seq::<Seq<Capture>>::empty());
        assert(uses_of_keys(Seq::empty()) =~= Set::<RelationView>::empty());
        assert(start.relations.union(Set::empty()) =~= start.relations);
    }
    while i < matches.len()
        invariant
            t.wf(),
            ms == match_captures(matches@),
            lookups_fit(t, ms, key_capture),
            i <= matches@.len(),
            asset.wf(),
            asset@ == (AssetView {
                relations: start.relations.union(
                    uses_of_keys(looked_up_keys(t, ms.take(i as int), key_capture)),
                ),
                ..start
            }),
        decreases matches@.len() - i,
    {
        let m = &matches[i].captures;
        let ghost before = looked_up_keys(t, ms.take(i as int), key_capture);
        proof {
            assert(ms[i as int] == m@);
            assert(ms.take(i + 1).drop_last() =~= ms.take(i as int));
            assert(ms.take(i + 1).last() == m@);
            assert(captures_fit(t, ms[i as int]));
            lemma_first_node_fits(t, m@, key_capture);
        }
        match first_capture_node(m, key_capture) {
            Some(n) => {
                if t.nodes[n].kind == NodeKind::StringLiteral {
                    match t.text(n) {
                        Some(_) => {
                            let node = &t.nodes[n];
                            match t.range_text(node.start + 1, node.end - 1) {
                                Some(key) => {
                                    let ghost kv = key@;
                                    let r = Relation::Uses(Id::Loc(key));
                                    asset.insert_relation(r);
                                    proof {
                                        let after = before.push(kv);
                                        assert(after.map_values(
                                            |k: Seq<char>|
                                                RelationView {
                                                    kind: RelationKind::Uses,
                                                    target: IdView::Loc(k),
                                                },
                                        ) =~= before.map_values(
                                            |k: Seq<char>|
                                                RelationView {
                                                    kind: RelationKind::Uses,
                                                    target: IdView::Loc(k),
                                                },
                                        ).push(
                                            RelationView {
                                                kind: RelationKind::Uses,
                                                target: IdView::Loc(kv),
                                            },
                                        ));
                                        before.map_values(
                                            |k: Seq<char>|
                                                RelationView {
                                                    kind: RelationKind::Uses,
                                                    target: IdView::Loc(k),
                                                },
                                        ).lemma_push_to_set_commute(
                                            RelationView {
                                                kind: RelationKind::Uses,
                                                target: IdView::Loc(kv),
                                            },
                                        );
                                        assert(start.relations.union(uses_of_keys(after))
                                            =~= start.relations.union(uses_of_keys(before)).insert(
                                            r@,
                                        ));
                                    }
                                },
                                None => {},
                            }
                        },
                        None => {},
                    }
                }
            },
            None => {},
        }
        i = i + 1;
    }
    proof {
        assert(ms.take(matches@.len() as int) =~= ms);
    }
}

/// The assets of the localized strings that a resource file defines, one per key of `keys`
/// (in that order), each contained by the resource `resource`.
pub open spec fn resource_strings(keys: Seq<Seq<char>>, resource: IdView) -> Seq<AssetView> {
    keys.map_values(
        |k: Seq<char>|
            AssetView {
                id: IdView::Loc(k),
                asset_type: AssetType::LocString,
                path: None,
                relations: set![RelationView { kind: RelationKind::ContainedBy, target: resource }],
                back_relations: Set::empty(),
            },
    )
}

/// The assets of the localized strings with keys `keys` that the resource `resource` defines
/// (see `resource_strings`).
pub fn resource_assets(keys: &Vec<String>, resource: &Id) -> (r: Vec<Asset>)
    ensures
        r@.map_values(|a: Asset| a@) == resource_strings(string_views(keys@), resource@),
        forall|q: int| 0 <= q < r@.len() ==> #[trigger] r@[q].wf(),
{
    let ghost want = resource_strings(string_views(keys@), resource@);
    let mut r: Vec<Asset> = Vec::new();
    let mut i: usize = 0;
    while i < keys.len()
        invariant
            want == resource_strings(string_views(keys@), resource@),
            i <= keys@.len(),
            r@.map_values(|a: Asset| a@) == want.take(i as int),
            forall|q: int| 0 <= q < r@.len() ==> #[trigger] r@[q].wf(),
        decreases keys@.len() - i,
    {
        let ghost before = r@.map_values(|a: Asset| a@);
        let rels = vec![Relation::ContainedBy(resource.clone())];
        let a = Asset::new(Id::Loc(keys[i].clone()), AssetType::LocString, None, rels);
        proof {
            let rv = crate::asset::relation_views(rels@);
            let c = RelationView { kind: RelationKind::ContainedBy, target: resource@ };
            assert(rv =~= seq![c]);
            assert(rv.to_set() =~= set![c]) by {
                assert(rv[0] == c);
            }
            assert(a@ == want[i as int]);
        }
        let ghost av = a@;
        r.push(a);
        proof {
            assert(r@.map_values(|a: Asset| a@) =~= before.push(av));
            assert(want.take(i + 1) =~= want.take(i as int).push(want[i as int]));
        }
        i = i + 1;
    }
    proof {
        assert(want.take(keys@.len() as int) =~= want);
    }
    r
}


/// The keys of the JSON object `text`, when `serde_json` reads it as a map from strings to
/// strings; none where it does not.
pub uninterp spec fn json_string_map_keys(text: Seq<char>) -> Option<Set<Seq<char>>>;

/// `serde_json::from_str` into a `HashMap<String, String>`, and the keys of the map: it fails
/// exactly where `json_string_map_keys` has none, and otherwise gives each key of the object
/// once, in the order that the map walks them, which is not stated.
#[verifier::external_body]
fn resource_keys(text: &str) -> (r: Option<Vec<String>>)
    ensures
        match json_string_map_keys(text@) {
            Some(keys) => r matches Some(v) && string_views(v@).to_set() == keys
                && string_views(v@).no_duplicates(),
            None => r is None,
        },
{
    match serde_json::from_str::<std::collections::HashMap<String, String>>(text) {
        Ok(map) => Some(map.into_keys().collect()),
        Err(_) => None,
    }
}

/// The assets of the localized strings that the resource file with text `text` defines, each
/// contained by `resource` (see `resource_strings`), one per key of its JSON object; none where
/// the text is no JSON object of strings.
pub fn parse_loc_resource(text: &str, resource: &Id) -> (r: Option<Vec<Asset>>)
    ensures
        match json_string_map_keys(text@) {
            Some(keys) => r matches Some(v) && exists|ks: Seq<Seq<char>>|
                ks.to_set() == keys && ks.no_duplicates() && v@.map_values(|a: Asset| a@)
                    == #[trigger] resource_strings(ks, resource@),
            None => r is None,
        },
        r matches Some(v) ==> forall|q: int| 0 <= q < v@.len() ==> #[trigger] v@[q].wf(),
{
    match resource_keys(text) {
        Some(keys) => {
            let assets = resource_assets(&keys, resource);
            proof {
                let ks = string_views(keys@);
                assert(ks.to_set() == json_string_map_keys(text@).unwrap());
            }
            Some(assets)
        },
        None => None,
    }
}

} // verus!
