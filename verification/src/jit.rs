//! Errors of the native-code tier. Code generation itself runs outside the
//! verified library.
use vstd::prelude::*;

verus! {

/// Errors that can occur while building the JIT backend.
#[derive(Debug)]
pub enum JitError {
    /// Failed to build the target ISA (unsupported platform, bad flags).
    Isa(String),
}

} // verus!
