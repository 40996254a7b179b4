# basil

The middle of the Basil compiler, verified with Verus: the intermediate representation (IR),
its lowering from the checked syntax tree, and its textual form.

- `src/analyze/` — the syntax tree that lowering reads, and what makes a program lowerable
  (`ValidAST::well_formed`): variables declared once and defined before use, no loops or
  stores through pointers, and counters that do not overflow.
- `src/ir.rs` — the IR: functions of basic blocks, operations, terminators, conditions, and
  the interning of string literals.
- `src/ir/lowering.rs` — what lowering produces, as functions on mathematical values.
- `src/ir/codegen.rs` — the lowering itself (`IR::generate`, `BlockBuilder`), proved to
  produce exactly what `lowering.rs` states, and to give well-formed function bodies: every
  branch goes to the return label or to a block of the body.
- `src/ir/invariants.rs` — what lowering keeps true from one statement to the next: the
  registers of variables stay distinct and below the register counter, and block labels stay
  distinct and below the label counter. The register law starts from a state whose variables'
  registers are below the counter; a function with parameters does not start in one, since
  its register counter starts at 0 while its parameters hold registers 0 and up.
- `src/ir/text.rs` — the text of the IR, proved against its specification.
- `src/synthesize/` — the interfaces of the back end.
- `app/` — what touches the file system and the platform.
