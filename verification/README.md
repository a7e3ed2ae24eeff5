# yaml_peg

A YAML 1.2 parser using a greedy parsing algorithm with PEG atoms, with the data model,
the dumper and the anchor visitor, verified with Verus.

## Layout

- `src/` is the verified library:
  - `parser/`: the sub-parsers on the bytes of a document (lexical atoms, strings,
    directives, block and flow structures) and the entry points `parse` / `parse_cyclic`;
  - `yaml.rs`: the data model (`Yaml`, `Node`), its equality and its value (`YamlV`,
    `NodeV`) that the contracts speak of;
  - `node.rs`: getters and conversions of nodes;
  - `number.rs`: integer and float texts and their values;
  - `anchors.rs`: the anchor visitor (an insertion-ordered map of the `ritelinked` crate
    behind trusted wrappers), `anchor_visit`, `replace_anchor`, `anchor_resolve`;
  - `dumper.rs`: the block-format dumper, specified character by character;
  - `indicator.rs`: error messages that point at a position of the document;
  - `serde.rs`: the data types that (de)serialization uses;
  - `text.rs`: text helpers and the trusted calls into `std` that convert text.
- `app/` holds what Verus does not take: the `serde` serializer and deserializer of nodes
  (`to_node`, `to_string`, `from_str`), the `serde` forms of the library's data types,
  float readers, and the parser helpers that take closures over the parser.
- `tests/` runs the library on concrete documents.
