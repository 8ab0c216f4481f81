//! What a walk over the files of a project keeps: which entries are assets, and the asset that
//! a file or directory with a meta file stands for.

use crate::asset::{Asset, AssetView};
use crate::asset_type::{asset_type_of_extension, AssetType};
use crate::display::file_name_of;
use crate::id::{Id, IdView};
use crate::text::{chars_of, str_equal};
use vstd::prelude::*;
use vstd::string::*;

verus! {

/// The position of the last `.` in `s`.
pub open spec fn last_dot(s: Seq<char>) -> Option<int>
    decreases s.len(),
{
    if s.len() == 0 {
        None
    } else if s.last() == '.' {
        Some(s.len() - 1)
    } else {
        last_dot(s.drop_last())
    }
}

/// The extension of a file named `name`, as `Path::extension` gives it: what follows the last
/// `.`, unless that `.` begins the name or the name is `..`.
pub open spec fn extension_of(name: Seq<char>) -> Option<Seq<char>> {
    if name == ".."@ {
        None
    } else {
        match last_dot(name) {
            Some(i) => if i > 0 {
                Some(name.skip(i + 1))
            } else {
                None
            },
            None => None,
        }
    }
}

/// The extension of the file named `name` (see `extension_of`).
pub fn file_extension(name: &str) -> (r: Option<String>)
    ensures
        match r {
            Some(e) => extension_of(name@) == Some(e@),
            None => extension_of(name@) is None,
        },
{
    proof {
        reveal_strlit("..");
    }
    if str_equal(name, "..") {
        return None;
    }
    let cs = chars_of(name);
    let n = cs.len();
    let mut k: usize = n;
    proof {
        assert(name@.take(n as int) =~= name@);
    }
    while k > 0 && cs[k - 1] != '.'
        invariant
            cs@ == name@,
            n == name@.len(),
            k <= n,
            last_dot(name@) == last_dot(name@.take(k as int)),
        decreases k,
    {
        proof {
            let t = name@.take(k as int);
            assert(t.drop_last() =~= name@.take(k - 1));
            assert(t.last() == cs@[k - 1]);
        }
        k = k - 1;
    }
    if k <= 1 {
        proof {
            if k == 1 {
                assert(name@.take(1).last() == cs@[0]);
            }
        }
        return None;
    }
    proof {
        assert(name@.take(k as int).last() == cs@[k - 1]);
        assert(name@.subrange(k as int, n as int) =~= name@.skip(k as int));
    }
    Some(String::from_str(name.substring_char(k, n)))
}

/// Whether an entry named `name` is left out of the walk: Unity ignores names that end in `~`.
pub fn ignored_entry(name: &str) -> (b: bool)
    ensures
        b == (name@.len() > 0 && name@.last() == '~'),
{
    let cs = chars_of(name);
    cs.len() > 0 && cs[cs.len() - 1] == '~'
}

/// Whether the file named `name` is a meta file, which describes another asset.
pub fn is_meta_file(name: &str) -> (b: bool)
    ensures
        b == (extension_of(name@) == Some("meta"@)),
{
    proof {
        reveal_strlit("meta");
    }
    match file_extension(name) {
        Some(e) => str_equal(e.as_str(), "meta"),
        None => false,
    }
}

/// The asset found at `rel_path` whose meta file gives identifier `guid`: a directory, or a file
/// of the kind its extension tells, with no relations yet.
pub open spec fn found_asset_view(guid: u128, is_dir: bool, rel_path: Seq<char>) -> AssetView {
    AssetView {
        id: IdView::Guid(guid),
        asset_type: if is_dir {
            AssetType::Directory
        } else {
            asset_type_of_extension(extension_of(file_name_of(rel_path)))
        },
        path: Some(rel_path),
        relations: Set::empty(),
        back_relations: Set::empty(),
    }
}

/// The asset found at `rel_path` (see `found_asset_view`).
pub fn found_asset(guid: u128, is_dir: bool, rel_path: String) -> (r: Asset)
    ensures
        r.wf(),
        r@ == found_asset_view(guid, is_dir, rel_path@),
{
    let kind = if is_dir {
        AssetType::Directory
    } else {
        let name = crate::display::file_name(rel_path.as_str());
        match file_extension(name.as_str()) {
            Some(e) => AssetType::from_extension(Some(e.as_str())),
            None => AssetType::from_extension(None),
        }
    };
    let r = Asset::new(Id::Guid(guid), kind, Some(rel_path), Vec::new());
    proof {
        assert(crate::asset::relation_views(Seq::<crate::asset::Relation>::empty()).to_set()
            =~= Set::empty());
    }
    r
}

} // verus!
