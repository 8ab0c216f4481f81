# unity_asset_graph

Builds a graph of the assets of a Unity project (prefabs, scenes, scripts, textures, localized
strings, C# types) and the relations between them, saves it, and answers questions about it:
which assets are unused, which references are broken, which assets outside a group the group
uses.

The library in `src/` is verified with Verus: every public function carries a contract, and
the laws that tie functions together are proof functions (`law_*`).

- `asset`, `asset_type`, `id`: assets, their kinds, identifiers and relations.
- `database`: the asset table, with back relations mirrored from declared ones.
- `graph`, `query`, `display`: containment closure, the nearest path of an asset, the queries
  of the command line, and the text shown for assets.
- `filter`, `patterns`: regular-expression filters and line patterns (through the `regex`
  crate).
- `project`, `walk`, `unity`, `loc`, `locstrings`: the decisions taken while a project is read:
  package roots, which files are assets, meta files, references in Unity YAML files, localized
  strings.
- `csharp`: reading C# source with tree-sitter into the library's syntax tree and query
  matches (the queries themselves are defined here).
- `syntax`, `structure`, `find_types`, `type_broker`, `qualified_name`: the analysis of C#
  files on that syntax tree, and the matching of type references.
- `grammar`: which node types of a grammar can hold which, and paths through them (the
  `grammar-paths` command prints those of the C# grammar from identifiers upwards).
- `storage`: the header of a saved database.

`app/` is the command-line program: argument parsing, file-system walks, reading files, JSON
and MessagePack, calling the library for every decision.
