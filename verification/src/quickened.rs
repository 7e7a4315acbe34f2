//! Quickened (type-specialised) variants of the arithmetic opcodes.
//!
//! A generic arithmetic site that has been seen to be monomorphic is
//! rewritten in place to a specialised opcode. Each specialised handler
//! checks that its operands still have the expected type, runs the fast
//! path, and otherwise *deopts*: it rewrites its opcode byte back to the
//! generic opcode, resets the frame's pc to its own start, and clears the
//! site's warm-up counter, so that the dispatch loop re-executes the site
//! with the generic handler. Operand bytes do not move, so jump targets are
//! unaffected.
//!
//! Floating-point arithmetic is left to the caller: a handler reports
//! [`ArithOutcome::Float`] when the `f64` fast path applies.
use vstd::prelude::*;

use crate::bytecode::{
    instr_len, instr_ok, is_opcode_byte, lemma_starts, op_at, starts_from, wf_from, Opcode,
};

verus! {

/// Total size of one quickened arithmetic instruction: one opcode byte and
/// three register operands.
pub const QUICKENED_INSN_SIZE: usize = 13;

/// Number of monomorphic fast-path executions before a generic site is
/// quickened.
pub const QUICKEN_THRESHOLD: u8 = 8;

/// The type of an operand register, as the quickened handlers see it.
#[derive(Clone, Copy, Debug, PartialEq, Eq, Structural)]
pub enum Operand {
    Integer32(i32),
    Float64,
    /// Anything else: string, object, bigint, boolean, undefined, ...
    Other,
}

impl Operand {
    pub open spec fn is_numeric(self) -> bool {
        self is Integer32 || self is Float64
    }
}

/// What a quickened handler does with the destination register.
#[derive(Clone, Copy, Debug, PartialEq, Eq, Structural)]
pub enum ArithOutcome {
    /// The `i32` fast path applied: write this integer.
    Int(i32),
    /// The `i32` operation overflowed: write this exact result as an `f64`.
    /// The site has been deoptimised.
    Wide(i64),
    /// The integer product is `-0`: write `-0.0`.
    NegativeZero,
    /// Both operands are numbers: write the `f64` result of the operation.
    Float,
    /// The operands do not fit this handler: nothing is written and the
    /// site has been deoptimised.
    Deopt,
}

/// The parts of the executing frame the quickened handlers touch.
#[derive(Clone, Debug)]
pub struct Frame {
    /// The code block's bytecode.
    pub bytecode: Vec<u8>,
    /// Per-pc warm-up counters of the code block.
    pub quicken_state: Vec<u8>,
    /// The frame's pc; while a handler runs, already the next instruction's.
    pub pc: u32,
}

impl Frame {
    /// A quickened instruction is executing: `pc` is past its 13 bytes.
    pub open spec fn executing_quickened(&self) -> bool {
        &&& QUICKENED_INSN_SIZE <= self.pc
        &&& self.pc - QUICKENED_INSN_SIZE < self.bytecode@.len()
    }
}

/// The frame after deoptimising the executing site to `generic`.
pub open spec fn deopted(before: Frame, after: Frame, generic: Opcode) -> bool {
    let pc = before.pc - QUICKENED_INSN_SIZE;
    &&& after.pc == pc
    &&& after.bytecode@ == before.bytecode@.update(pc, generic.spec_byte())
    &&& after.quicken_state@ == if pc < before.quicken_state@.len() {
        before.quicken_state@.update(pc, 0)
    } else {
        before.quicken_state@
    }
}

/// Recover the opcode pc of the executing quickened instruction from the
/// frame pc, which already points past it.
pub fn opcode_pc(frame: &Frame) -> (pc: usize)
    requires
        frame.executing_quickened(),
    ensures
        pc == frame.pc - QUICKENED_INSN_SIZE,
{
    frame.pc as usize - QUICKENED_INSN_SIZE
}

/// Rewrite the executing site's opcode byte to `generic_opcode`, reset its
/// warm-up counter, and point the frame back at it, so that the dispatch
/// loop re-executes it with the generic handler.
pub fn deopt(frame: &mut Frame, generic_opcode: Opcode)
    requires
        old(frame).executing_quickened(),
    ensures
        deopted(*old(frame), *final(frame), generic_opcode),
{
    let pc = opcode_pc(frame);
    frame.bytecode.set(pc, generic_opcode.to_byte());
    if pc < frame.quicken_state.len() {
        frame.quicken_state.set(pc, 0);
    }
    frame.pc = pc as u32;
}

/// Replacing the opcode byte of the instruction at `pc` by another opcode
/// with the same fixed operand layout keeps every instruction boundary from
/// `p` on, and keeps the walk well formed.
pub proof fn lemma_same_layout_update(s: Seq<u8>, pc: int, b: u8, p: int)
    requires
        0 <= p,
        wf_from(s, p),
        0 <= pc < s.len(),
        pc < p || starts_from(s, p).contains(pc),
        is_opcode_byte(b),
        op_at(s, pc) != Opcode::JumpTable,
        Opcode::spec_decode(b) != Opcode::JumpTable,
        Opcode::spec_decode(b).spec_fixed_operand_bytes() == op_at(s, pc).spec_fixed_operand_bytes(),
    ensures
        wf_from(s.update(pc, b), p),
        starts_from(s.update(pc, b), p) == starts_from(s, p),
    decreases s.len() - p,
{
    let t = s.update(pc, b);
    lemma_starts(s, p);
    if p < s.len() {
        let next = p + instr_len(s, p);
        if p == pc {
            assert(instr_len(t, p) == instr_len(s, p));
            assert(instr_ok(t, p));
            lemma_same_layout_update(s, pc, b, next);
        } else if pc < p {
            assert(t[p] == s[p]);
            if op_at(s, p) == Opcode::JumpTable {
                assert(t[p + 5] == s[p + 5]);
                assert(t[p + 6] == s[p + 6]);
                assert(t[p + 7] == s[p + 7]);
                assert(t[p + 8] == s[p + 8]);
            }
            assert(instr_len(t, p) == instr_len(s, p));
            assert(instr_ok(t, p));
            lemma_same_layout_update(s, pc, b, next);
        } else {
            let st = starts_from(s, p);
            assert(st == seq![p] + starts_from(s, next));
            let k = choose|k: int| 0 <= k < st.len() && st[k] == pc;
            assert(k > 0);
            assert(starts_from(s, next)[k - 1] == pc);
            lemma_starts(s, next);
            assert(starts_from(s, next).contains(pc));
            assert(pc >= next);
            assert(t[p] == s[p]);
            if op_at(s, p) == Opcode::JumpTable {
                assert(t[p + 5] == s[p + 5]);
                assert(t[p + 6] == s[p + 6]);
                assert(t[p + 7] == s[p + 7]);
                assert(t[p + 8] == s[p + 8]);
            }
            assert(instr_len(t, p) == instr_len(s, p));
            assert(instr_ok(t, p));
            lemma_same_layout_update(s, pc, b, next);
        }
        assert(starts_from(t, p) == seq![p] + starts_from(t, next));
    }
}

/// The generic opcode a quickened opcode deopts to.
pub open spec fn generic_of(op: Opcode) -> Opcode {
    match op {
        Opcode::AddInt | Opcode::AddF64 => Opcode::Add,
        Opcode::SubInt | Opcode::SubF64 => Opcode::Sub,
        _ => Opcode::Mul,
    }
}

pub open spec fn is_quickened(op: Opcode) -> bool {
    op == Opcode::AddInt || op == Opcode::AddF64 || op == Opcode::SubInt || op == Opcode::SubF64
        || op == Opcode::MulInt || op == Opcode::MulF64
}

/// Deoptimising a quickened site keeps the bytecode well formed with the
/// same instruction boundaries, so jump targets stay valid, and the frame
/// then points at the site, which decodes to the generic opcode.
pub proof fn lemma_deopt_keeps_layout(before: Frame, after: Frame)
    requires
        before.executing_quickened(),
        wf_from(before.bytecode@, 0),
        starts_from(before.bytecode@, 0).contains(before.pc - QUICKENED_INSN_SIZE),
        is_quickened(op_at(before.bytecode@, before.pc - QUICKENED_INSN_SIZE)),
        deopted(before, after, generic_of(op_at(before.bytecode@, before.pc - QUICKENED_INSN_SIZE))),
    ensures
        wf_from(after.bytecode@, 0),
        starts_from(after.bytecode@, 0) == starts_from(before.bytecode@, 0),
        op_at(after.bytecode@, after.pc as int) == generic_of(
            op_at(before.bytecode@, before.pc - QUICKENED_INSN_SIZE),
        ),
{
    let pc = before.pc - QUICKENED_INSN_SIZE;
    let g = generic_of(op_at(before.bytecode@, pc));
    lemma_same_layout_update(before.bytecode@, pc, g.spec_byte(), 0);
}

/// The effect of a quickened `i32` handler for `generic`, where `result` is
/// the exact integer result when both operands are `i32`.
pub open spec fn int_handler(
    before: Frame,
    after: Frame,
    out: ArithOutcome,
    lhs: Operand,
    rhs: Operand,
    generic: Opcode,
    result: Option<int>,
) -> bool {
    match result {
        Some(r) => if i32::MIN <= r <= i32::MAX {
            out == ArithOutcome::Int(r as i32) && after == before
        } else {
            out == ArithOutcome::Wide(r as i64) && deopted(before, after, generic)
        },
        None => out == ArithOutcome::Deopt && deopted(before, after, generic),
    }
}

/// The effect of a quickened `f64` handler for `generic`.
pub open spec fn float_handler(
    before: Frame,
    after: Frame,
    out: ArithOutcome,
    lhs: Operand,
    rhs: Operand,
    generic: Opcode,
) -> bool {
    if lhs.is_numeric() && rhs.is_numeric() {
        out == ArithOutcome::Float && after == before
    } else {
        out == ArithOutcome::Deopt && deopted(before, after, generic)
    }
}

/// Quickened `+` for `i32 × i32`; deopts to `Add` on any other operand
/// type, and on overflow (after producing the exact sum).
pub struct AddInt;

impl AddInt {
    pub fn operation(lhs: Operand, rhs: Operand, frame: &mut Frame) -> (out: ArithOutcome)
        requires
            old(frame).executing_quickened(),
        ensures
            int_handler(
                *old(frame),
                *final(frame),
                out,
                lhs,
                rhs,
                Opcode::Add,
                match (lhs, rhs) {
                    (Operand::Integer32(x), Operand::Integer32(y)) => Some(x + y),
                    _ => None,
                },
            ),
    {
        if let (Operand::Integer32(x), Operand::Integer32(y)) = (lhs, rhs) {
            if let Some(result) = x.checked_add(y) {
                return ArithOutcome::Int(result);
            }
            let wide = x as i64 + y as i64;
            deopt(frame, Opcode::Add);
            return ArithOutcome::Wide(wide);
        }
        deopt(frame, Opcode::Add);
        ArithOutcome::Deopt
    }
}

/// Quickened `+` for numeric operands; deopts to `Add` when either operand
/// is not a number.
pub struct AddF64;

impl AddF64 {
    pub fn operation(lhs: Operand, rhs: Operand, frame: &mut Frame) -> (out: ArithOutcome)
        requires
            old(frame).executing_quickened(),
        ensures
            float_handler(*old(frame), *final(frame), out, lhs, rhs, Opcode::Add),
    {
        float_operation(lhs, rhs, frame, Opcode::Add)
    }
}

/// Quickened `-` for `i32 × i32`; deopts to `Sub`.
pub struct SubInt;

impl SubInt {
    pub fn operation(lhs: Operand, rhs: Operand, frame: &mut Frame) -> (out: ArithOutcome)
        requires
            old(frame).executing_quickened(),
        ensures
            int_handler(
                *old(frame),
                *final(frame),
                out,
                lhs,
                rhs,
                Opcode::Sub,
                match (lhs, rhs) {
                    (Operand::Integer32(x), Operand::Integer32(y)) => Some(x - y),
                    _ => None,
                },
            ),
    {
        if let (Operand::Integer32(x), Operand::Integer32(y)) = (lhs, rhs) {
            if let Some(result) = x.checked_sub(y) {
                return ArithOutcome::Int(result);
            }
            let wide = x as i64 - y as i64;
            deopt(frame, Opcode::Sub);
            return ArithOutcome::Wide(wide);
        }
        deopt(frame, Opcode::Sub);
        ArithOutcome::Deopt
    }
}

/// Quickened `-` for numeric operands; deopts to `Sub`.
pub struct SubF64;

impl SubF64 {
    pub fn operation(lhs: Operand, rhs: Operand, frame: &mut Frame) -> (out: ArithOutcome)
        requires
            old(frame).executing_quickened(),
        ensures
            float_handler(*old(frame), *final(frame), out, lhs, rhs, Opcode::Sub),
    {
        float_operation(lhs, rhs, frame, Opcode::Sub)
    }
}

/// Quickened `*` for `i32 × i32`; a zero product with a negative factor is
/// `-0`. Deopts to `Mul` on other operand types and on overflow.
pub struct MulInt;

impl MulInt {
    pub fn operation(lhs: Operand, rhs: Operand, frame: &mut Frame) -> (out: ArithOutcome)
        requires
            old(frame).executing_quickened(),
        ensures
            match (lhs, rhs) {
                (Operand::Integer32(x), Operand::Integer32(y)) => if x * y == 0 && (x < 0 || y
                    < 0) {
                    out == ArithOutcome::NegativeZero && *final(frame) == *old(frame)
                } else {
                    int_handler(
                        *old(frame),
                        *final(frame),
                        out,
                        lhs,
                        rhs,
                        Opcode::Mul,
                        Some(x * y),
                    )
                },
                _ => out == ArithOutcome::Deopt && deopted(*old(frame), *final(frame), Opcode::Mul),
            },
    {
        if let (Operand::Integer32(x), Operand::Integer32(y)) = (lhs, rhs) {
            proof {
                assert(-0x8000_0000 * 0x7fff_ffff <= x * y <= 0x8000_0000 * 0x8000_0000)
                    by (nonlinear_arith)
                    requires
                        -0x8000_0000 <= x <= 0x7fff_ffff,
                        -0x8000_0000 <= y <= 0x7fff_ffff,
                ;
            }
            let wide = x as i64 * y as i64;
            if let Some(result) = x.checked_mul(y) {
                if result == 0 && (x < 0 || y < 0) {
                    return ArithOutcome::NegativeZero;
                }
                return ArithOutcome::Int(result);
            }
            deopt(frame, Opcode::Mul);
            return ArithOutcome::Wide(wide);
        }
        deopt(frame, Opcode::Mul);
        ArithOutcome::Deopt
    }
}

/// Quickened `*` for numeric operands; deopts to `Mul`.
pub struct MulF64;

impl MulF64 {
    pub fn operation(lhs: Operand, rhs: Operand, frame: &mut Frame) -> (out: ArithOutcome)
        requires
            old(frame).executing_quickened(),
        ensures
            float_handler(*old(frame), *final(frame), out, lhs, rhs, Opcode::Mul),
    {
        float_operation(lhs, rhs, frame, Opcode::Mul)
    }
}

/// The shared body of the `f64` handlers: compute when both operands are
/// numbers, deopt to `generic` otherwise.
fn float_operation(lhs: Operand, rhs: Operand, frame: &mut Frame, generic: Opcode) -> (out:
    ArithOutcome)
    requires
        old(frame).executing_quickened(),
    ensures
        float_handler(*old(frame), *final(frame), out, lhs, rhs, generic),
{
    match lhs {
        Operand::Integer32(_) | Operand::Float64 => {},
        Operand::Other => {
            deopt(frame, generic);
            return ArithOutcome::Deopt;
        },
    }
    match rhs {
        Operand::Integer32(_) | Operand::Float64 => {},
        Operand::Other => {
            deopt(frame, generic);
            return ArithOutcome::Deopt;
        },
    }
    ArithOutcome::Float
}

} // verus!
