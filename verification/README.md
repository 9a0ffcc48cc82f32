# lib — a verified abstract domain for templated YAML

This crate holds the data model and the decision procedures of an abstract
interpreter for templated YAML documents (Helm-style charts): the guarded
fragment trees that describe every document a template can render, the
algebra of conditions that guard them, and the source-layout planning that
decides which container owns content escaping a control region.

The interpreter that walks a template and evaluates its expressions is not
part of this crate: it rests on a template parser and on evaluation state
that live elsewhere. The crate holds the pieces that interpreter decides
with, each proved on its own.

Every function is written in Verus and proved against its contract, but for
two one-line wrappers around std calls (`Rc` clone and `String::push`)
whose contracts are taken on trust.

## Modules

- `window` — half-open source windows bounding the descendants of an
  adopted node.
- `predicate`, `conditions`, `disjunction` — guard predicates, path
  conditions, their conjunction, the canonical sorted disjunction of
  alternative conditions, and a condition chain read as one ordered branch.
- `domain` — guarded fragments, mappings, sequences, scalar parts
  (splices, taints, text) and site stamping.
- `contributions` — what one level of template nodes contributes to its
  container: mapping entries with merged guarded arms, sequence items,
  floating output, and the loop exits raised inside the level.
- `scalars` — scalar runs: the hole that stands for a whole value, and
  the bounded product of per-segment scalar arms.
- `tokens` — completed-token claims: the quote context at each splice and
  the paths every scalar arm renders as a whole, quoted or templated token.
- `text` — plain-text recognizers: template action wrappers, assignment
  right-hand sides, control-flow holes, and YAML-document file-name keys.
- `syntax` — the templated-YAML tree (mapping entries, sequence items,
  control regions, output actions, scalar lines, opaque nodes).
- `layout` — own-text ends, content marks, a helper root's indent, inline
  regions, tree paths and branch windows.
- `child_index` — per-container index of planned children by source window.
- `adoption` — the adoption plan: parent shapes and slots, escaped
  controls, crossing priors, and the queries the interpreter asks of it.
- `deferred` — collecting deferred content and splitting it across the
  branches of an escaped control.
- `placement` — whether deferred content renders inside a parent, and
  which hung children really belong to a container.
- `steps` — the steps a branch body evaluates in source order, the nodes a
  later `if` branch defers, and what a batch leaves past its window.

Laws that relate several operations are public proof functions beside the
operations they speak of; `tests/` runs the operations on concrete inputs.
