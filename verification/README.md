# svd_blocks

Generates register blocks for the peripherals of a microcontroller: for each peripheral a struct
that leads to its registers, and a module that lays them out, with padding where the description
leaves a gap and a union where registers overlap.

* `src/` is the library, written in Verus. Each function carries a contract that says what it
  returns; the layout of a block is proved, not tested.
* `tests/` runs the library on examples.
* `app/` reads a description that `svd_parser` has parsed, and asks its caller for the code of
  single registers.

The text of the generated code is kept in `quote::Tokens`, and struct fields are printed by `syn`.
What the proofs take on trust about these crates, and about `inflections`, which changes the case
of names, stands in `src/tokens.rs` and `src/names.rs`.
