//! What the opcodes with operand metadata do to the machine, as the
//! engine's handlers do it: registers, the accumulator, the value stack and
//! the heap, with property access left to the object model. This is what
//! the read/write metadata of [`super::operand_info`] is held to.
use vstd::prelude::*;

use super::operand_info::{spec_operand_info, OperandRole};
use crate::bytecode::Opcode;

verus! {

/// The machine an instruction works on.
pub struct State {
    pub regs: spec_fn(u32) -> int,
    pub acc: int,
    pub stack: Seq<int>,
    pub heap: int,
}

/// Property access of the object model: the value `get(heap, object,
/// receiver)` reads (calling a getter may change the heap to `get_heap`),
/// and the heap after `set(heap, object, receiver, value)` and
/// `define(heap, object, value)`.
pub struct Objects {
    pub get: spec_fn(int, int, int) -> int,
    pub get_heap: spec_fn(int, int, int) -> int,
    pub set: spec_fn(int, int, int, int) -> int,
    pub define: spec_fn(int, int, int) -> int,
}

/// `m` with register `r` holding `x`.
pub open spec fn with_reg(m: State, r: u32, x: int) -> State {
    State { regs: |q: u32| if q == r { x } else { (m.regs)(q) }, ..m }
}

/// Two machines that agree everywhere.
pub open spec fn same(a: State, b: State) -> bool {
    &&& forall|r: u32| #[trigger] (a.regs)(r) == (b.regs)(r)
    &&& a.acc == b.acc
    &&& a.stack == b.stack
    &&& a.heap == b.heap
}

/// The number of register operands of an opcode this model knows.
pub open spec fn register_arity(op: Opcode) -> Option<nat> {
    match op {
        Opcode::Move => Some(2),
        Opcode::GetPropertyByName => Some(2),
        Opcode::GetPropertyByNameWithThis => Some(3),
        Opcode::SetPropertyByName => Some(2),
        Opcode::SetPropertyByNameWithThis => Some(3),
        Opcode::DefineOwnPropertyByName => Some(2),
        Opcode::SetAccumulator => Some(1),
        Opcode::SetRegisterFromAccumulator => Some(1),
        Opcode::PopIntoRegister => Some(1),
        Opcode::PushFromRegister => Some(1),
        _ => None,
    }
}

/// The machine after the instruction `op` with register operands `r` (in
/// encoding order) runs on `m`:
/// - `Move { dst, src }`: `dst` gets the value of `src`;
/// - `GetPropertyByName { dst, value }`: `dst` gets the property of the
///   object in `value`, read with `value` as receiver;
/// - `GetPropertyByNameWithThis { dst, receiver, value }`: the same, read
///   with `receiver` as receiver;
/// - `SetPropertyByName { value, object }`: the property of `object` is set
///   to `value`, with `object` as receiver;
/// - `SetPropertyByNameWithThis { value, receiver, object }`: the same, with
///   `receiver` as receiver;
/// - `DefineOwnPropertyByName { object, value }`: the property is defined on
///   `object` with `value`;
/// - `SetAccumulator { src }`: the accumulator gets the value of `src`;
/// - `SetRegisterFromAccumulator { dst }`: `dst` gets the accumulator;
/// - `PopIntoRegister { dst }`: `dst` gets the value popped off the stack;
/// - `PushFromRegister { src }`: the value of `src` is pushed on the stack.
pub open spec fn step(op: Opcode, r: Seq<u32>, o: Objects, m: State) -> Option<State> {
    let reg = m.regs;
    match op {
        Opcode::Move => Some(with_reg(m, r[0], reg(r[1]))),
        Opcode::GetPropertyByName => Some(
            with_reg(
                State { heap: (o.get_heap)(m.heap, reg(r[1]), reg(r[1])), ..m },
                r[0],
                (o.get)(m.heap, reg(r[1]), reg(r[1])),
            ),
        ),
        Opcode::GetPropertyByNameWithThis => Some(
            with_reg(
                State { heap: (o.get_heap)(m.heap, reg(r[2]), reg(r[1])), ..m },
                r[0],
                (o.get)(m.heap, reg(r[2]), reg(r[1])),
            ),
        ),
        Opcode::SetPropertyByName => Some(
            State { heap: (o.set)(m.heap, reg(r[1]), reg(r[1]), reg(r[0])), ..m },
        ),
        Opcode::SetPropertyByNameWithThis => Some(
            State { heap: (o.set)(m.heap, reg(r[2]), reg(r[1]), reg(r[0])), ..m },
        ),
        Opcode::DefineOwnPropertyByName => Some(
            State { heap: (o.define)(m.heap, reg(r[0]), reg(r[1])), ..m },
        ),
        Opcode::SetAccumulator => Some(State { acc: reg(r[0]), ..m }),
        Opcode::SetRegisterFromAccumulator => Some(with_reg(m, r[0], m.acc)),
        Opcode::PopIntoRegister => Some(
            with_reg(State { stack: m.stack.drop_last(), ..m }, r[0], m.stack.last()),
        ),
        Opcode::PushFromRegister => Some(State { stack: m.stack.push(reg(r[0])), ..m }),
        _ => None,
    }
}

/// The opcodes with operand metadata are exactly those of this model
/// other than `Move` (which the analysis decodes itself), and the metadata
/// lists exactly their register operands.
pub proof fn lemma_listed_opcodes_are_modelled(op: Opcode)
    ensures
        spec_operand_info(op) is Some <==> (register_arity(op) is Some && op != Opcode::Move),
        spec_operand_info(op) is Some ==> register_arity(op) == Some(
            spec_operand_info(op).unwrap().len(),
        ),
{
}

/// Operands listed as written are overwritten without being read: as long
/// as no operand read by the instruction names the same register, the
/// machine after the instruction does not depend on what that register
/// held before.
pub proof fn lemma_written_operands_are_not_read(
    op: Opcode,
    r: Seq<u32>,
    o: Objects,
    m: State,
    i: int,
    x: int,
)
    requires
        spec_operand_info(op) matches Some(roles) && r.len() == roles.len() && 0 <= i < r.len()
            && roles[i] == OperandRole::Write && forall|j: int|
            0 <= j < r.len() && roles[j] == OperandRole::Read ==> r[j] != r[i],
    ensures
        step(op, r, o, m) is Some,
        same(step(op, r, o, with_reg(m, r[i], x)).unwrap(), step(op, r, o, m).unwrap()),
{
    let roles = spec_operand_info(op).unwrap();
    match op {
        Opcode::GetPropertyByName => {
            assert(roles[1] == OperandRole::Read);
        },
        Opcode::GetPropertyByNameWithThis => {
            assert(roles[1] == OperandRole::Read);
            assert(roles[2] == OperandRole::Read);
        },
        _ => {},
    }
}

/// Operands listed as read are not written: as long as no operand written
/// by the instruction names the same register, it keeps its value.
pub proof fn lemma_read_operands_are_kept(op: Opcode, r: Seq<u32>, o: Objects, m: State, i: int)
    requires
        spec_operand_info(op) matches Some(roles) && r.len() == roles.len() && 0 <= i < r.len()
            && roles[i] == OperandRole::Read && forall|j: int|
            0 <= j < r.len() && roles[j] == OperandRole::Write ==> r[j] != r[i],
    ensures
        step(op, r, o, m) is Some,
        (step(op, r, o, m).unwrap().regs)(r[i]) == (m.regs)(r[i]),
{
    let roles = spec_operand_info(op).unwrap();
    match op {
        Opcode::GetPropertyByName | Opcode::GetPropertyByNameWithThis => {
            assert(roles[0] == OperandRole::Write);
        },
        _ => {},
    }
}

/// An instruction with operand metadata neither reads nor writes any
/// register besides its operands.
pub proof fn lemma_other_registers_untouched(
    op: Opcode,
    r: Seq<u32>,
    o: Objects,
    m: State,
    q: u32,
    x: int,
)
    requires
        spec_operand_info(op) matches Some(roles) && r.len() == roles.len(),
        !r.contains(q),
    ensures
        step(op, r, o, m) is Some,
        same(step(op, r, o, with_reg(m, q, x)).unwrap(), with_reg(step(op, r, o, m).unwrap(), q, x)),
{
    let roles = spec_operand_info(op).unwrap();
    assert(forall|k: int| 0 <= k < r.len() ==> r[k] != q);
    if r.len() >= 1 {
        assert(r[0] != q);
    }
    if r.len() >= 2 {
        assert(r[1] != q);
    }
    if r.len() >= 3 {
        assert(r[2] != q);
    }
}

} // verus!
