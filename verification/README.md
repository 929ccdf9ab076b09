# mlmd-core

A verified core for MLMD, a small language that describes neural network
architectures as chains of blocks (`Input(shape=[1,28,28]) -> Conv2d -> ReLU`),
named tensors (`-> [skip]`), joins (`[a, b] -> Add`) and groups
(`[[ Encoder > Block ]]`).

`src/` is the library, written in Verus: every function carries a contract
that Verus proves.

- `tokenizer`, `parser`, `nodes`: source text to tokens to a syntax tree.
- `graph_builder`, `graph`, `graph_utils`: the tree to a block graph with
  unique ids; topological orders (Kahn's method with cycle detection, and a
  depth-first order).
- `block`, `shape`, `lint`: block definitions, shape inference and the lint
  rules (unknown blocks, missing parameters, undefined or duplicate tensor
  names, unused tensors, cycles, shape errors).
- `codegen`, `candle`, `keras`: code generation targets.
- `svg`, `style`: the SVG document builder and the drawing style of blocks.
- `lsp`, `navigate`, `completions`, `diagnostics`, `edit`: the editor
  features (UTF-16 positions, hover, go-to-definition, references,
  completion, diagnostics, incremental edits).
- `plugin`, `config`, `context`, `error`, `install`, `strmap`, `text`:
  plugin bookkeeping, configuration values, errors and string helpers.

`app/` is the command-line program around the library: argument parsing,
files, the language server's transport, dynamic plugin loading and the
floating-point layout and rendering of diagrams.

`tests/` runs the library on concrete inputs.
