//! Read/write metadata for opcode register operands.
//!
//! Each entry gives the role of each register operand, in encoding order,
//! of a given opcode. An opcode that is not listed has no metadata, and the
//! peephole analysis treats it as a hard stop (fail-closed). Index,
//! immediate and address operands are not listed: only register operands,
//! which for every listed opcode come first in its encoding.
use vstd::prelude::*;

use crate::bytecode::Opcode;

verus! {

/// The role of a register operand for the peephole analysis.
#[derive(Clone, Copy, Debug, PartialEq, Eq, Structural)]
pub enum OperandRole {
    /// The opcode reads from this register.
    Read,
    /// The opcode writes to this register and does not read it.
    Write,
}

/// The roles of the register operands of `opcode`, in encoding order, or
/// `None` when the opcode has no metadata.
pub open spec fn spec_operand_info(opcode: Opcode) -> Option<Seq<OperandRole>> {
    match opcode {
        Opcode::GetPropertyByName => Some(seq![OperandRole::Write, OperandRole::Read]),
        Opcode::GetPropertyByNameWithThis => Some(
            seq![OperandRole::Write, OperandRole::Read, OperandRole::Read],
        ),
        Opcode::SetPropertyByName => Some(seq![OperandRole::Read, OperandRole::Read]),
        Opcode::SetPropertyByNameWithThis => Some(
            seq![OperandRole::Read, OperandRole::Read, OperandRole::Read],
        ),
        Opcode::DefineOwnPropertyByName => Some(seq![OperandRole::Read, OperandRole::Read]),
        Opcode::SetAccumulator => Some(seq![OperandRole::Read]),
        Opcode::SetRegisterFromAccumulator => Some(seq![OperandRole::Write]),
        Opcode::PopIntoRegister => Some(seq![OperandRole::Write]),
        Opcode::PushFromRegister => Some(seq![OperandRole::Read]),
        _ => None,
    }
}

/// Listed opcodes keep their register operands inside their fixed-size
/// encoding, carry no address, and are not `Move`.
pub proof fn lemma_operand_info_layout(opcode: Opcode)
    requires
        spec_operand_info(opcode) is Some,
    ensures
        4 * spec_operand_info(opcode).unwrap().len() <= opcode.spec_fixed_operand_bytes(),
        1 <= spec_operand_info(opcode).unwrap().len() <= 3,
        opcode != Opcode::Move,
        opcode != Opcode::JumpTable,
{
}

/// Return the [`OperandRole`] of every register operand of `opcode`, in
/// encoding order; `None` means the opcode has no metadata.
pub fn operand_info(opcode: Opcode) -> (r: Option<Vec<OperandRole>>)
    ensures
        match r {
            Some(v) => spec_operand_info(opcode) == Some(v@),
            None => spec_operand_info(opcode) is None,
        },
{
    let r = match opcode {
        Opcode::GetPropertyByName => Some(vec![OperandRole::Write, OperandRole::Read]),
        Opcode::GetPropertyByNameWithThis => Some(
            vec![OperandRole::Write, OperandRole::Read, OperandRole::Read],
        ),
        Opcode::SetPropertyByName => Some(vec![OperandRole::Read, OperandRole::Read]),
        Opcode::SetPropertyByNameWithThis => Some(
            vec![OperandRole::Read, OperandRole::Read, OperandRole::Read],
        ),
        Opcode::DefineOwnPropertyByName => Some(vec![OperandRole::Read, OperandRole::Read]),
        Opcode::SetAccumulator => Some(vec![OperandRole::Read]),
        Opcode::SetRegisterFromAccumulator => Some(vec![OperandRole::Write]),
        Opcode::PopIntoRegister => Some(vec![OperandRole::Write]),
        Opcode::PushFromRegister => Some(vec![OperandRole::Read]),
        _ => None,
    };
    proof {
        if r is Some {
            assert(spec_operand_info(opcode).unwrap() =~= r->0@);
        }
    }
    r
}

} // verus!
