# boa_vm

Verified pieces of the Boa JavaScript engine's virtual machine, written in
Verus. Every function in `src/` carries a contract that Verus proves, except
eight small wrappers around `arrayvec::ArrayVec` and `thin_vec::ThinVec`
methods (marked `#[verifier::external_body]`), whose contracts restate what
those crates document and are trusted.

- `bytecode` — opcodes, the little-endian operand encoding, instruction
  walking, and the emitter.
- `peephole` — the Move-elision analysis (`find_safe_move_elisions`) and the
  byte-removal rewriter (`rewrite::elide_moves`), with the laws that every
  jump still lands on the instruction it aimed at, that nine bytes go per
  deleted `Move`, and that the output decodes cleanly with every address on
  an instruction boundary.
- `inline_cache` — polymorphic inline caches keyed by shape address and
  liveness, over `arrayvec::ArrayVec`.
- `property`, `name` — the property-access and binding-assignment opcode
  handlers with their cache fast paths; what needs the rest of the engine
  (a generic `[[Get]]`/`[[Set]]`, calling a getter or setter, resolving a
  binding) is handed back as an action.
- `quickened` — type-specialised arithmetic handlers and deoptimisation.
- `arith_instrument` — per-site operand statistics, the aggregates of the
  opportunity report, and the per-operator deopt predicates.

`app/` holds what stays outside: the Cranelift code generator, the
thread-local registry that prints the report, and display helpers. The
Cranelift crates did not build alongside the library, so they are not
listed in `Cargo.toml`; `app/jit.rs` compiles once they are added.
