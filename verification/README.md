# veryl_css

Turns an analyzed [Veryl](https://veryl-lang.org) module into a style sheet that computes what the
module computes: signals are custom properties, `always_comb` and `always_ff` blocks are
declarations, and registers pass their state on through two animations, `hoist` and `capture`. The
page supplies the clock by running these animations on `body`.

The library is written in Verus. Every function states what it returns or which message it fails
with, and the proofs hold the code to it.

- `ir`, `value`: the design and its constants.
- `literal`, `constant`: literals and constants as CSS integers.
- `expr`, `branch`, `statement`: expressions, conditional statements and blocks.
- `signal`, `module`: the custom properties of a module, and its style sheet.
- `css`: how the parts of a style sheet are written.
- `order`, `names`, `context`, `text`, `error`: the pieces these share.
- `semantics`, `comparison`, `cycle`: what designs and style sheets compute, and that they agree.
- `naming`, `scope`: which custom properties there are, and which of them are read and set where.

`app/` analyzes a file with the Veryl crates and converts their representation for the library.
