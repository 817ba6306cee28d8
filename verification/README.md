# locus_llvm

The back end and driver logic of the Locus compiler `locusc`, as a verified library.

- `src/` holds the library. The code generator (`lower`, `blocks`, `arith`, `arrays`,
  `objects`, `closures`, `captures`, `calls`, `simd`, `heap`, `cps`, `emit`) turns the
  intermediate form of `ir` into a list of builder commands (`target`). The analyses it
  needs are in `analysis`, `freevars`, `loops`, `layout` and `names`. The driver has its
  rules in `cli`, `report`, `manifest`, `diagnostics`, `symbols` and `link`; the tool
  server has its own in `requests`, `rpc`, `worker`, `session`, `catalog`, `help` and
  `json`.
- What the commands mean is said in `meaning`. There, and in `masks` and `running`, it is
  proved what the emitted code computes: integer operations, array elements, masks, and
  whole programs of integers with branches and loops (`programs`).
- `evaluation` says what programs mean that build functions, pass them, call them and
  themselves, and write to mutable locals. `recursion` proves that their modules return
  what they mean, however deep the calls go; `weaving`, `spreading` and `standing` are the
  steps to it. A loop in such a program builds no function, and there is no collector.
- `tails`, `lambdas`, `applying`, `scoping` and `currying` speak of single functions, their
  closures and their calls, `tuples` of objects, `rereading` of mutable locals, raw memory
  and the arrays that a loop borrows. `clauses`, `covering` and `handling` speak of the
  handlers that are inlined, and `handlers` of those that are rewritten. `bounds` says why
  a bounds check can be left out.
- `tests/` runs the library; `tests/codegen.rs` runs the emitted commands.
- `app/` is the program around it: it replays the commands into LLVM, runs or links the
  result, reads and writes files, and serves the tools.
