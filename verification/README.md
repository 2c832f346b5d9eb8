# evml

A small compiler from a minimal functional language to EVM bytecode, written
in Verus: the library's functions carry `requires`/`ensures` contracts that
Verus proves.

The pipeline is `parse` → `resolve` → `type_check` → `lower` → `compile` →
`assemble`; `compile_from_source` runs all of it and says, stage by stage,
which error a text gets.

Local functions (a `fn` declared inside a function body) are parsed, resolved,
type-checked and lowered, but the code generator does not place them: a
program that still holds one after lowering is refused with
`CompileError::LocalFunction`. Nor does the code generator spill values: a
program that needs a stack slot more than sixteen deep is refused by the
assembler (`Error::Assemble`).

Layout:

- `src/` — the verified library.
  - `parse`, `resolve`, `type_check`, `lower`: the front end, each stated
    exactly over a model of its input (`ast`, `ir`, `names`).
  - `graph`, `analysis`, `compile`: control-flow graphs, postorder and
    dominators, liveness and pinning, and the code generator. The graph
    traits (`Graph`, `EntryNode`, `Successors`, `Predecessors`, `Dfs`,
    `NodeOrdering`, `Cfg`, `Procedure`) are implemented by the dominator
    tree, the block graph of a procedure, `Transpose` and `NodeOrder`; the
    algorithms themselves take the concrete types.
  - `ancestry`: ancestry in a tree given by parent links, and the proofs
    that the tree's interval test and nearest common ancestor answer it.
  - `isa`, `opcodes`, `assemble`, `word`: instructions, the opcode table,
    label resolution and byte encoding.
  - `stack`, `scc`, `utils`: a stack with checkpoints, strongly connected
    components, bit sets and small helpers.
  - `direct`: a compiler for single prefix expressions, straight to bytes.
- `tests/` — tests of the library, run with the real `revm` where code is
  executed.
- `app/` — the command-line program: reads a file, compiles it, prints the
  disassembly and runs it on `revm`.
