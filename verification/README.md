# openakb-validate

A validator for OpenAKB descriptors, written in Verus: every rule of the
library is an executable function whose contract Verus proves.

- `src/` is the verified library. `validate` checks a descriptor (a
  `Json` value) against the embedded OpenAKB v1 JSON Schema, the
  descriptor-local semantic rules (unique ids, non-empty sections, resolving
  references, an acyclic and bounded parent tree) and, in strict mode, the
  unknown-core-member lint. Findings carry the stable codes `AKB001`-`AKB012`,
  sorted and without repeats. `extract_citations` finds the `[cite: ...]`
  markers of Markdown content. The content checks plan their fetches
  (`content_requests`, `sidecar::sidecar_requests`) and turn the fetched
  bytes into a report (`check_content_with`): guide and capture hashes,
  section content hashes and citations, provenance sidecars, and claim
  quotes searched for in the captures they cite.
- `app/` is the I/O around it: conversion from `serde_json::Value` (also of
  fetched sidecars), the async `Resolver` and the file-system side of
  `LocalFileResolver`, and serializable copies of the report types.
- `tests/` runs the library on concrete descriptors.

Calls into `jsonschema`, `regex`, `pulldown-cmark`, `fluent-uri`, `base64`
and `sha2` stand behind small trusted functions whose contracts name what
those crates compute; everything around them is proved.

## Ids

Ids follow the OpenAKB v1 specification: a plain local id (`[a-z0-9_-]`, at
most 64 characters) names whatever entity declares it, and references are
resolved by lookup, so an undeclared plain reference such as `ghost` is
`AKB007` and a cited plain id such as `s1` resolves like any other. Typed ids
(`SRC-`/`SEC-` and six ASCII letters or digits, in any ASCII case) are also
accepted, and their prefix alone decides their kind. A reading in which only
typed ids resolve, so that a plain `parent_id` or a plain `[cite:]` id in
fetched content would only be reported as malformed (`AKB011`), is not
followed: the specification resolves plain ids, and so does this crate.
