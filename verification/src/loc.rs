//! Line-by-line readers of Unity YAML documents that find localization data: the resource
//! names of the localization manager, overridden localization keys in prefab instances, and the
//! keys of localized text components.

use crate::id::{Id, IdView};
use crate::patterns::{
    ascii_chars_are_digits, ascii_digits, captured, first_capture, regex_first_capture, rest_after,
    BEHAVIOUR_HEADER_PATTERN,
    LIST_ITEM_PATTERN, LOC_KEY_PATTERN, OVERRIDE_VALUE_PATTERN,
};
use crate::text::{str_equal, str_starts_with};
use vstd::prelude::*;

verus! {

/// The line that opens a MonoBehaviour document body.
pub const MONO_BEHAVIOUR_LINE: &'static str = "MonoBehaviour:";

/// The script reference of the localization manager component.
pub const MANAGER_SCRIPT_LINE: &'static str =
    "  m_Script: {fileID: 11500000, guid: 65ce276a26b28f94b8abe63deebd2050, type: 3}";

/// The field that lists the resource name bases of the localization manager.
pub const NAME_BASES_LINE: &'static str = "  resourceNameBases:";

/// The prefix of every YAML document header.
pub const DOCUMENT_PREFIX: &'static str = "---";

/// The line that opens a prefab instance document body.
pub const PREFAB_INSTANCE_LINE: &'static str = "PrefabInstance:";

/// The modification block of a prefab instance.
pub const MODIFICATION_LINE: &'static str = "  m_Modification:";

/// The list of modifications of a prefab instance.
pub const MODIFICATIONS_LINE: &'static str = "    m_Modifications:";

/// The modification that overrides a localization key.
pub const KEY_PROPERTY_LINE: &'static str = "      propertyPath: localizedString.key";

/// The script reference of the localized text component.
pub const LOCALIZED_TEXT_SCRIPT_LINE: &'static str =
    "  m_Script: {fileID: 11500000, guid: 05503c2c5cf7b7f45bec1113802f99a0, type: 3}";

/// The field that holds the localized string of a localized text component.
pub const LOCALIZED_STRING_LINE: &'static str = "  localizedString:";

/// The flag that marks a localized string as not localized.
pub const UNLOCALIZED_LINE: &'static str = "    keepUnlocalized: 1";

/// Whether `line` begins a new YAML document.
pub open spec fn is_document_start(line: Seq<char>) -> bool {
    DOCUMENT_PREFIX@.len() <= line.len() && line.take(DOCUMENT_PREFIX@.len() as int)
        == DOCUMENT_PREFIX@
}

// ----------------------------------------------------------------------------------------------
// Localization manager
// ----------------------------------------------------------------------------------------------

/// Reads the resource name bases of the localization manager out of a scene or prefab.
#[derive(Debug, Clone)]
pub enum LocManagerParser {
    Start,
    File { file_id: String },
    MonoBehaviour { file_id: String },
    LocManager { file_id: String },
    NamesWip { file_id: String, name_bases: Vec<String> },
    Names { file_id: String, name_bases: Vec<String> },
}

/// The abstract state of a [`LocManagerParser`].
pub enum ManagerView {
    Start,
    File { file_id: Seq<char> },
    MonoBehaviour { file_id: Seq<char> },
    LocManager { file_id: Seq<char> },
    NamesWip { file_id: Seq<char>, name_bases: Seq<Seq<char>> },
    Names { file_id: Seq<char>, name_bases: Seq<Seq<char>> },
}

/// The texts of a list of strings.
pub open spec fn texts(v: Seq<String>) -> Seq<Seq<char>> {
    v.map_values(|s: String| s@)
}

impl View for LocManagerParser {
    type V = ManagerView;

    open spec fn view(&self) -> ManagerView {
        match self {
            LocManagerParser::Start => ManagerView::Start,
            LocManagerParser::File { file_id } => ManagerView::File { file_id: file_id@ },
            LocManagerParser::MonoBehaviour { file_id } => ManagerView::MonoBehaviour {
                file_id: file_id@,
            },
            LocManagerParser::LocManager { file_id } => ManagerView::LocManager {
                file_id: file_id@,
            },
            LocManagerParser::NamesWip { file_id, name_bases } => ManagerView::NamesWip {
                file_id: file_id@,
                name_bases: texts(name_bases@),
            },
            LocManagerParser::Names { file_id, name_bases } => ManagerView::Names {
                file_id: file_id@,
                name_bases: texts(name_bases@),
            },
        }
    }
}

/// What the manager reader does with a line that no state in particular expects: a
/// MonoBehaviour header (whose file id `header` is) starts a new document, anything else leaves
/// the state as it is.
pub open spec fn manager_fallback(s: ManagerView, header: Option<Seq<char>>) -> ManagerView {
    match header {
        Some(file_id) => ManagerView::File { file_id },
        None => s,
    }
}

/// The state of the manager reader after `line`, where `header` is the file id that the line
/// gives as a MonoBehaviour header, if it is one.
pub open spec fn manager_next(s: ManagerView, line: Seq<char>, header: Option<Seq<char>>) -> ManagerView {
    match s {
        ManagerView::File { file_id } => if line == MONO_BEHAVIOUR_LINE@ {
            ManagerView::MonoBehaviour { file_id }
        } else {
            manager_fallback(s, header)
        },
        ManagerView::MonoBehaviour { file_id } => if line == MANAGER_SCRIPT_LINE@ {
            ManagerView::LocManager { file_id }
        } else {
            manager_fallback(s, header)
        },
        ManagerView::LocManager { file_id } => if line == NAME_BASES_LINE@ {
            ManagerView::NamesWip { file_id, name_bases: Seq::empty() }
        } else {
            manager_fallback(s, header)
        },
        ManagerView::NamesWip { file_id, name_bases } => match rest_after(line, "  - "@, false) {
            Some(base) => ManagerView::NamesWip { file_id, name_bases: name_bases.push(base) },
            None => ManagerView::Names { file_id, name_bases },
        },
        _ => manager_fallback(s, header),
    }
}

impl LocManagerParser {
    /// Reads one line, given the file id that the line holds when it is a MonoBehaviour header.
    pub fn advance(self, line: &str, header: Option<String>) -> (r: Self)
        ensures
            r@ == manager_next(self@, line@, captured(header)),
    {
        match self {
            LocManagerParser::File { file_id } => {
                if str_equal(line, MONO_BEHAVIOUR_LINE) {
                    LocManagerParser::MonoBehaviour { file_id }
                } else {
                    Self::fallback(LocManagerParser::File { file_id }, header)
                }
            },
            LocManagerParser::MonoBehaviour { file_id } => {
                if str_equal(line, MANAGER_SCRIPT_LINE) {
                    LocManagerParser::LocManager { file_id }
                } else {
                    Self::fallback(LocManagerParser::MonoBehaviour { file_id }, header)
                }
            },
            LocManagerParser::LocManager { file_id } => {
                if str_equal(line, NAME_BASES_LINE) {
                    let name_bases: Vec<String> = Vec::new();
                    assert(texts(name_bases@) =~= Seq::empty());
                    LocManagerParser::NamesWip { file_id, name_bases }
                } else {
                    Self::fallback(LocManagerParser::LocManager { file_id }, header)
                }
            },
            LocManagerParser::NamesWip { file_id, mut name_bases } => {
                let item = first_capture(LIST_ITEM_PATTERN, line);
                match item {
                    Some(base) => {
                        proof {
                            assert(texts(name_bases@.push(base)) =~= texts(name_bases@).push(
                                base@,
                            ));
                        }
                        name_bases.push(base);
                        LocManagerParser::NamesWip { file_id, name_bases }
                    },
                    None => LocManagerParser::Names { file_id, name_bases },
                }
            },
            other => Self::fallback(other, header),
        }
    }

    fn fallback(state: Self, header: Option<String>) -> (r: Self)
        ensures
            r@ == manager_fallback(state@, captured(header)),
    {
        match header {
            Some(file_id) => LocManagerParser::File { file_id },
            None => state,
        }
    }

    /// Reads one line of a Unity YAML document.
    pub fn update(self, line: &str) -> (r: Self)
        ensures
            r@ == manager_next(self@, line@, regex_first_capture(BEHAVIOUR_HEADER_PATTERN@, line@)),
            regex_first_capture(BEHAVIOUR_HEADER_PATTERN@, line@) matches Some(id) ==> id.len() > 0
                && line@ == "--- !u!114 &"@ + id && ascii_chars_are_digits(id),
            regex_first_capture(BEHAVIOUR_HEADER_PATTERN@, line@) is None ==> forall|id: Seq<char>|
                id.len() > 0 && ascii_digits(id) ==> line@ != "--- !u!114 &"@ + id,
    {
        let header = first_capture(BEHAVIOUR_HEADER_PATTERN, line);
        self.advance(line, header)
    }
}

// ----------------------------------------------------------------------------------------------
// Overridden localization keys
// ----------------------------------------------------------------------------------------------

/// Reads the localization key that a prefab instance overrides.
#[derive(Debug, Clone)]
pub enum LocOverrideParser {
    Start,
    File,
    PrefabInstance,
    Modification,
    Modifications,
    PropertyPath,
    PropertyValue(String),
}

/// The abstract state of a [`LocOverrideParser`].
pub enum OverrideView {
    Start,
    File,
    PrefabInstance,
    Modification,
    Modifications,
    PropertyPath,
    PropertyValue(Seq<char>),
}

impl View for LocOverrideParser {
    type V = OverrideView;

    open spec fn view(&self) -> OverrideView {
        match self {
            LocOverrideParser::Start => OverrideView::Start,
            LocOverrideParser::File => OverrideView::File,
            LocOverrideParser::PrefabInstance => OverrideView::PrefabInstance,
            LocOverrideParser::Modification => OverrideView::Modification,
            LocOverrideParser::Modifications => OverrideView::Modifications,
            LocOverrideParser::PropertyPath => OverrideView::PropertyPath,
            LocOverrideParser::PropertyValue(v) => OverrideView::PropertyValue(v@),
        }
    }
}

/// What the override reader does with a line that its state does not expect: a document header
/// starts a new document, anything else leaves the state as it is.
pub open spec fn override_fallback(s: OverrideView, line: Seq<char>) -> OverrideView {
    if is_document_start(line) {
        OverrideView::File
    } else {
        s
    }
}

/// The state of the override reader after `line`.
pub open spec fn override_next(s: OverrideView, line: Seq<char>) -> OverrideView {
    match s {
        OverrideView::File => if line == PREFAB_INSTANCE_LINE@ {
            OverrideView::PrefabInstance
        } else {
            override_fallback(s, line)
        },
        OverrideView::PrefabInstance => if line == MODIFICATION_LINE@ {
            OverrideView::Modification
        } else {
            override_fallback(s, line)
        },
        OverrideView::Modification => if line == MODIFICATIONS_LINE@ {
            OverrideView::Modifications
        } else {
            override_fallback(s, line)
        },
        OverrideView::Modifications => if line == KEY_PROPERTY_LINE@ {
            OverrideView::PropertyPath
        } else {
            override_fallback(s, line)
        },
        OverrideView::PropertyPath => match rest_after(line, "      value: "@, true) {
            Some(value) => OverrideView::PropertyValue(value),
            None => OverrideView::PropertyPath,
        },
        _ => override_fallback(s, line),
    }
}

impl LocOverrideParser {
    fn fallback(state: Self, line: &str) -> (r: Self)
        ensures
            r@ == override_fallback(state@, line@),
    {
        if str_starts_with(line, DOCUMENT_PREFIX) {
            LocOverrideParser::File
        } else {
            state
        }
    }

    /// Reads one line of a Unity YAML document.
    pub fn update(self, line: &str) -> (r: Self)
        ensures
            r@ == override_next(self@, line@),
    {
        match self {
            LocOverrideParser::File => {
                if str_equal(line, PREFAB_INSTANCE_LINE) {
                    LocOverrideParser::PrefabInstance
                } else {
                    Self::fallback(LocOverrideParser::File, line)
                }
            },
            LocOverrideParser::PrefabInstance => {
                if str_equal(line, MODIFICATION_LINE) {
                    LocOverrideParser::Modification
                } else {
                    Self::fallback(LocOverrideParser::PrefabInstance, line)
                }
            },
            LocOverrideParser::Modification => {
                if str_equal(line, MODIFICATIONS_LINE) {
                    LocOverrideParser::Modifications
                } else {
                    Self::fallback(LocOverrideParser::Modification, line)
                }
            },
            LocOverrideParser::Modifications => {
                if str_equal(line, KEY_PROPERTY_LINE) {
                    LocOverrideParser::PropertyPath
                } else {
                    Self::fallback(LocOverrideParser::Modifications, line)
                }
            },
            LocOverrideParser::PropertyPath => {
                match first_capture(OVERRIDE_VALUE_PATTERN, line) {
                    Some(value) => LocOverrideParser::PropertyValue(value),
                    None => LocOverrideParser::PropertyPath,
                }
            },
            other => Self::fallback(other, line),
        }
    }
}

// ----------------------------------------------------------------------------------------------
// Keys of localized text components
// ----------------------------------------------------------------------------------------------

/// Reads the localization key of a localized text component.
#[derive(Debug, Clone)]
pub enum LocStringParser {
    Start,
    File,
    MonoBehaviour,
    LocalizedText,
    LocalizedString,
    LocStringNoKey,
    LocStringKey(Id),
}

/// The abstract state of a [`LocStringParser`].
pub enum StringView {
    Start,
    File,
    MonoBehaviour,
    LocalizedText,
    LocalizedString,
    LocStringNoKey,
    LocStringKey(IdView),
}

impl View for LocStringParser {
    type V = StringView;

    open spec fn view(&self) -> StringView {
        match self {
            LocStringParser::Start => StringView::Start,
            LocStringParser::File => StringView::File,
            LocStringParser::MonoBehaviour => StringView::MonoBehaviour,
            LocStringParser::LocalizedText => StringView::LocalizedText,
            LocStringParser::LocalizedString => StringView::LocalizedString,
            LocStringParser::LocStringNoKey => StringView::LocStringNoKey,
            LocStringParser::LocStringKey(id) => StringView::LocStringKey(id@),
        }
    }
}

/// The state of the localized text reader after `line`.
pub open spec fn string_next(s: StringView, line: Seq<char>) -> StringView {
    match s {
        StringView::Start => if is_document_start(line) {
            StringView::File
        } else {
            s
        },
        StringView::File => if line == MONO_BEHAVIOUR_LINE@ {
            StringView::MonoBehaviour
        } else {
            s
        },
        StringView::MonoBehaviour => if line == LOCALIZED_TEXT_SCRIPT_LINE@ {
            StringView::LocalizedText
        } else {
            s
        },
        StringView::LocalizedText => if line == LOCALIZED_STRING_LINE@ {
            StringView::LocalizedString
        } else {
            s
        },
        StringView::LocalizedString => if line == UNLOCALIZED_LINE@ {
            StringView::LocStringNoKey
        } else {
            match rest_after(line, "    key: "@, false) {
                Some(key) => StringView::LocStringKey(IdView::Loc(key)),
                None => s,
            }
        },
        _ => s,
    }
}

impl LocStringParser {
    /// Reads one line of a Unity YAML document.
    pub fn update(self, line: &str) -> (r: Self)
        ensures
            r@ == string_next(self@, line@),
    {
        match self {
            LocStringParser::Start => {
                if str_starts_with(line, DOCUMENT_PREFIX) {
                    LocStringParser::File
                } else {
                    LocStringParser::Start
                }
            },
            LocStringParser::File => {
                if str_equal(line, MONO_BEHAVIOUR_LINE) {
                    LocStringParser::MonoBehaviour
                } else {
                    LocStringParser::File
                }
            },
            LocStringParser::MonoBehaviour => {
                if str_equal(line, LOCALIZED_TEXT_SCRIPT_LINE) {
                    LocStringParser::LocalizedText
                } else {
                    LocStringParser::MonoBehaviour
                }
            },
            LocStringParser::LocalizedText => {
                if str_equal(line, LOCALIZED_STRING_LINE) {
                    LocStringParser::LocalizedString
                } else {
                    LocStringParser::LocalizedText
                }
            },
            LocStringParser::LocalizedString => {
                if str_equal(line, UNLOCALIZED_LINE) {
                    LocStringParser::LocStringNoKey
                } else {
                    match first_capture(LOC_KEY_PATTERN, line) {
                        Some(key) => LocStringParser::LocStringKey(Id::Loc(key)),
                        None => LocStringParser::LocalizedString,
                    }
                }
            },
            other => other,
        }
    }
}

/// Once a localized text reader has found a key, or found that the string is not localized, no
/// further line changes its state.
pub proof fn law_string_reader_settles(s: StringView, line: Seq<char>)
    requires
        s is LocStringNoKey || s is LocStringKey,
    ensures
        string_next(s, line) == s,
{
}

/// A document header restarts the override reader, from every state but the one that waits for
/// the overridden value.
pub proof fn law_override_restarts(s: OverrideView, line: Seq<char>)
    requires
        !(s is PropertyPath),
        is_document_start(line),
    ensures
        override_next(s, line) == OverrideView::File,
{
    reveal_strlit("---");
    reveal_strlit("PrefabInstance:");
    reveal_strlit("  m_Modification:");
    reveal_strlit("    m_Modifications:");
    reveal_strlit("      propertyPath: localizedString.key");
    assert(line.take(3)[0] == '-');
    if line == PREFAB_INSTANCE_LINE@ {
        assert(PREFAB_INSTANCE_LINE@[0] == 'P');
    }
    if line == MODIFICATION_LINE@ {
        assert(MODIFICATION_LINE@[0] == ' ');
    }
    if line == MODIFICATIONS_LINE@ {
        assert(MODIFICATIONS_LINE@[0] == ' ');
    }
    if line == KEY_PROPERTY_LINE@ {
        assert(KEY_PROPERTY_LINE@[0] == ' ');
    }
}

/// A MonoBehaviour header starts a new document for the manager reader, from every state but
/// the one that reads the list of name bases.
pub proof fn law_manager_restarts(s: ManagerView, id: Seq<char>)
    requires
        !(s is NamesWip),
    ensures
        manager_next(s, "--- !u!114 &"@ + id, Some(id)) == (ManagerView::File { file_id: id }),
{
    let line = "--- !u!114 &"@ + id;
    reveal_strlit("--- !u!114 &");
    reveal_strlit("MonoBehaviour:");
    reveal_strlit("  m_Script: {fileID: 11500000, guid: 65ce276a26b28f94b8abe63deebd2050, type: 3}");
    reveal_strlit("  resourceNameBases:");
    assert(line[0] == '-');
    if line == MONO_BEHAVIOUR_LINE@ {
        assert(MONO_BEHAVIOUR_LINE@[0] == 'M');
    }
    if line == MANAGER_SCRIPT_LINE@ {
        assert(MANAGER_SCRIPT_LINE@[0] == ' ');
    }
    if line == NAME_BASES_LINE@ {
        assert(NAME_BASES_LINE@[0] == ' ');
    }
}

} // verus!
