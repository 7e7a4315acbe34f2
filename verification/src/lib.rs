//! Verified pieces of the Boa virtual machine: the bytecode model, the
//! Move-elision peephole pass, polymorphic inline caches and the property
//! and name handlers that use them, quickened arithmetic with
//! deoptimisation, and arithmetic-site instrumentation.
pub mod bytecode;
pub mod peephole;
pub mod inline_cache;
pub mod property;
pub mod name;
pub mod quickened;
pub mod arith_instrument;
pub mod jit;
