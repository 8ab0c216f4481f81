//! The kinds of assets found in a Unity project.

use crate::text::str_equal;
use vstd::prelude::*;
use vstd::string::*;

verus! {

/// The kind of an asset.
#[derive(PartialEq, Eq, Structural, Default, Debug, Clone, Copy, Hash)]
pub enum AssetType {
    #[default]
    Unknown,
    Directory,
    Prefab,
    Scene,
    Asset,
    Texture,
    Model,
    Audio,
    CsFile,
    LocResource,
    LocString,
    BrokenRef,
    CsType,
}

/// The kind of a file with extension `ext` (without the dot), or of a file without extension.
pub open spec fn asset_type_of_extension(ext: Option<Seq<char>>) -> AssetType {
    match ext {
        Some(e) => if e == "prefab"@ {
            AssetType::Prefab
        } else if e == "unity"@ || e == "scene"@ {
            AssetType::Scene
        } else if e == "asset"@ {
            AssetType::Asset
        } else if e == "png"@ || e == "jpg"@ || e == "jpeg"@ {
            AssetType::Texture
        } else if e == "fbx"@ || e == "obj"@ {
            AssetType::Model
        } else if e == "wav"@ || e == "mp3"@ {
            AssetType::Audio
        } else if e == "cs"@ {
            AssetType::CsFile
        } else {
            AssetType::Unknown
        },
        None => AssetType::Unknown,
    }
}

/// The text shown for a kind of asset.
pub open spec fn asset_type_label(t: AssetType) -> Seq<char> {
    match t {
        AssetType::Unknown => "Unknown"@,
        AssetType::Directory => "Directory"@,
        AssetType::Prefab => "Prefab"@,
        AssetType::Scene => "Scene"@,
        AssetType::Texture => "Texture"@,
        AssetType::Model => "Model"@,
        AssetType::Audio => "Audio"@,
        AssetType::CsFile => "C# Script"@,
        AssetType::LocResource => "Localization Resource"@,
        AssetType::LocString => "Localized String"@,
        AssetType::BrokenRef => "Broken Reference"@,
        AssetType::Asset => "Asset"@,
        AssetType::CsType => "C# Type"@,
    }
}

impl AssetType {
    /// Whether assets of this kind are Unity YAML files (prefabs, scenes, assets).
    pub fn is_unity(&self) -> (b: bool)
        ensures
            b == (*self == AssetType::Prefab || *self == AssetType::Scene || *self
                == AssetType::Asset),
    {
        match self {
            Self::Prefab | Self::Scene | Self::Asset => true,
            _ => false,
        }
    }

    /// The kind of a file with extension `ext` (see `asset_type_of_extension`).
    pub fn from_extension(ext: Option<&str>) -> (r: AssetType)
        ensures
            r == asset_type_of_extension(
                match ext {
                    Some(e) => Some(e@),
                    None => None,
                },
            ),
    {
        match ext {
            Some(e) => {
                if str_equal(e, "prefab") {
                    AssetType::Prefab
                } else if str_equal(e, "unity") || str_equal(e, "scene") {
                    AssetType::Scene
                } else if str_equal(e, "asset") {
                    AssetType::Asset
                } else if str_equal(e, "png") || str_equal(e, "jpg") || str_equal(e, "jpeg") {
                    AssetType::Texture
                } else if str_equal(e, "fbx") || str_equal(e, "obj") {
                    AssetType::Model
                } else if str_equal(e, "wav") || str_equal(e, "mp3") {
                    AssetType::Audio
                } else if str_equal(e, "cs") {
                    AssetType::CsFile
                } else {
                    AssetType::Unknown
                }
            },
            None => AssetType::Unknown,
        }
    }

    /// The text shown for this kind (see `asset_type_label`).
    pub fn label(&self) -> (s: String)
        ensures
            s@ == asset_type_label(*self),
    {
        let text = match self {
            Self::Unknown => "Unknown",
            Self::Directory => "Directory",
            Self::Prefab => "Prefab",
            Self::Scene => "Scene",
            Self::Texture => "Texture",
            Self::Model => "Model",
            Self::Audio => "Audio",
            Self::CsFile => "C# Script",
            Self::LocResource => "Localization Resource",
            Self::LocString => "Localized String",
            Self::BrokenRef => "Broken Reference",
            Self::Asset => "Asset",
            Self::CsType => "C# Type",
        };
        String::from_str(text)
    }
}

/// Whether kind `t` is read as a Unity YAML file (see `AssetType::is_unity`).
pub open spec fn unity_kind(t: AssetType) -> bool {
    t == AssetType::Prefab || t == AssetType::Scene || t == AssetType::Asset
}

/// A file is read as a Unity YAML file exactly when its extension is `prefab`, `unity`, `scene`
/// or `asset`; a prefab is classified as a prefab (its kind shows as "Prefab"), the scene
/// extensions as a scene, and `asset` as an asset; a file without extension is of unknown kind.
pub proof fn law_unity_extensions(e: Seq<char>)
    ensures
        unity_kind(asset_type_of_extension(Some(e))) <==> (e == "prefab"@ || e == "unity"@ || e
            == "scene"@ || e == "asset"@),
        e == "prefab"@ ==> asset_type_label(asset_type_of_extension(Some(e))) == "Prefab"@,
        e == "unity"@ || e == "scene"@ ==> asset_type_label(asset_type_of_extension(Some(e)))
            == "Scene"@,
        e == "asset"@ ==> asset_type_label(asset_type_of_extension(Some(e))) == "Asset"@,
        asset_type_of_extension(None) == AssetType::Unknown,
{
    reveal_strlit("prefab");
    reveal_strlit("unity");
    reveal_strlit("scene");
    reveal_strlit("asset");
    assert("prefab"@ != "unity"@ && "prefab"@ != "scene"@ && "prefab"@ != "asset"@) by {
        assert("prefab"@[0] != "unity"@[0]);
        assert("prefab"@[0] != "scene"@[0]);
        assert("prefab"@[0] != "asset"@[0]);
    }
    assert("unity"@ != "asset"@ && "scene"@ != "asset"@) by {
        assert("unity"@[0] != "asset"@[0]);
        assert("scene"@[0] != "asset"@[0]);
    }
}

/// Files of the Unity YAML extensions get three different kinds, and no other extension gets
/// one of those kinds: the kind of a file tells a prefab, a scene and an asset apart.
pub proof fn law_unity_kinds_distinct(e1: Seq<char>, e2: Seq<char>)
    requires
        unity_kind(asset_type_of_extension(Some(e1))),
        asset_type_of_extension(Some(e1)) == asset_type_of_extension(Some(e2)),
    ensures
        e1 == e2 || ((e1 == "unity"@ || e1 == "scene"@) && (e2 == "unity"@ || e2 == "scene"@)),
{
}

/// A file is a C# script exactly when its extension is `cs`, and a C# script is no Unity YAML
/// file.
pub proof fn law_cs_extension(e: Seq<char>)
    ensures
        asset_type_of_extension(Some(e)) == AssetType::CsFile <==> e == "cs"@,
        e == "cs"@ ==> !unity_kind(asset_type_of_extension(Some(e))),
{
    reveal_strlit("cs");
    reveal_strlit("prefab");
    reveal_strlit("unity");
    reveal_strlit("scene");
    reveal_strlit("asset");
    if e == "cs"@ {
        assert(e != "prefab"@ && e != "unity"@ && e != "scene"@ && e != "asset"@) by {
            assert(e[0] == 'c');
        }
        assert(e != "png"@ && e != "jpg"@ && e != "jpeg"@ && e != "fbx"@ && e != "obj"@ && e
            != "wav"@ && e != "mp3"@) by {
            reveal_strlit("png");
            reveal_strlit("jpg");
            reveal_strlit("jpeg");
            reveal_strlit("fbx");
            reveal_strlit("obj");
            reveal_strlit("wav");
            reveal_strlit("mp3");
            assert(e[0] == 'c');
        }
    }
}

} // verus!
