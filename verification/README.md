# editor

The decision logic of a docked scene editor, as a Verus library: which panels
sit where, what the tree and the catalogue list, what a keyboard action or a
click asks for, which inspector cards and rows stay when the selection or its
components change, how a project catalogue is judged and ordered, and when a
scene preview may be replaced. Every public function states its result in
`ensures`; properties that span calls are stated as `law_*` and `lemma_*`
proof functions.

- `src/` — the verified library, one module per panel or concern.
- `tests/` — tests on concrete values.
- `app/` — the command line: arguments, reading `content.toml` and the content
  tree, and printing what the project state reports.
