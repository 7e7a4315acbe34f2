//! Quickened arithmetic handlers and their deoptimisation.

use boa_vm::bytecode::{BytecodeEmitter, Opcode};
use boa_vm::quickened::{
    deopt, opcode_pc, AddF64, AddInt, ArithOutcome, Frame, MulF64, MulInt, Operand, SubF64,
    SubInt, QUICKENED_INSN_SIZE, QUICKEN_THRESHOLD,
};

/// A frame executing a quickened instruction at pc 5 (after a 5-byte jump),
/// with a warm counter there.
fn frame(op: Opcode) -> Frame {
    let mut emit = BytecodeEmitter::new();
    emit.emit_jump(boa_vm::bytecode::Address::new(5));
    emit.emit_binary(op, 0, 1, 2);
    let bytecode = emit.into_bytecode().bytes;
    let mut quicken_state = vec![0u8; bytecode.len()];
    quicken_state[5] = QUICKEN_THRESHOLD;
    Frame { bytecode, quicken_state, pc: 5 + QUICKENED_INSN_SIZE as u32 }
}

fn assert_deopted(f: &Frame, generic: Opcode) {
    assert_eq!(f.pc, 5);
    assert_eq!(Opcode::decode(f.bytecode[5]), generic);
    assert_eq!(f.quicken_state[5], 0);
}

#[test]
fn opcode_pc_is_behind_the_frame_pc() {
    let f = frame(Opcode::AddInt);
    assert_eq!(opcode_pc(&f), 5);
}

#[test]
fn deopt_rewrites_only_the_opcode_byte() {
    let mut f = frame(Opcode::MulInt);
    let before = f.bytecode.clone();
    deopt(&mut f, Opcode::Mul);
    assert_deopted(&f, Opcode::Mul);
    assert_eq!(f.bytecode.len(), before.len());
    for (i, (a, b)) in f.bytecode.iter().zip(before.iter()).enumerate() {
        if i != 5 {
            assert_eq!(a, b);
        }
    }
}

#[test]
fn add_int_fast_path_and_overflow() {
    let mut f = frame(Opcode::AddInt);
    let out = AddInt::operation(Operand::Integer32(2), Operand::Integer32(3), &mut f);
    assert_eq!(out, ArithOutcome::Int(5));
    assert_eq!(Opcode::decode(f.bytecode[5]), Opcode::AddInt);
    assert_eq!(f.pc, 18);

    let out = AddInt::operation(Operand::Integer32(i32::MAX), Operand::Integer32(1), &mut f);
    assert_eq!(out, ArithOutcome::Wide(i64::from(i32::MAX) + 1));
    assert_deopted(&f, Opcode::Add);
}

#[test]
fn add_int_deopts_on_a_float_or_other_operand() {
    let mut f = frame(Opcode::AddInt);
    assert_eq!(AddInt::operation(Operand::Integer32(1), Operand::Float64, &mut f), ArithOutcome::Deopt);
    assert_deopted(&f, Opcode::Add);
    let mut f = frame(Opcode::AddInt);
    assert_eq!(AddInt::operation(Operand::Other, Operand::Integer32(1), &mut f), ArithOutcome::Deopt);
    assert_deopted(&f, Opcode::Add);
}

#[test]
fn sub_int_fast_path_and_overflow() {
    let mut f = frame(Opcode::SubInt);
    assert_eq!(SubInt::operation(Operand::Integer32(2), Operand::Integer32(5), &mut f), ArithOutcome::Int(-3));
    let out = SubInt::operation(Operand::Integer32(i32::MIN), Operand::Integer32(1), &mut f);
    assert_eq!(out, ArithOutcome::Wide(i64::from(i32::MIN) - 1));
    assert_deopted(&f, Opcode::Sub);
}

#[test]
fn mul_int_negative_zero_and_overflow() {
    let mut f = frame(Opcode::MulInt);
    assert_eq!(MulInt::operation(Operand::Integer32(6), Operand::Integer32(7), &mut f), ArithOutcome::Int(42));
    assert_eq!(
        MulInt::operation(Operand::Integer32(0), Operand::Integer32(-5), &mut f),
        ArithOutcome::NegativeZero
    );
    assert_eq!(MulInt::operation(Operand::Integer32(0), Operand::Integer32(5), &mut f), ArithOutcome::Int(0));
    assert_eq!(Opcode::decode(f.bytecode[5]), Opcode::MulInt);
    let out = MulInt::operation(Operand::Integer32(65536), Operand::Integer32(65536), &mut f);
    assert_eq!(out, ArithOutcome::Wide(1 << 32));
    assert_deopted(&f, Opcode::Mul);
}

#[test]
fn float_handlers_accept_numbers_and_deopt_otherwise() {
    let mut f = frame(Opcode::AddF64);
    assert_eq!(AddF64::operation(Operand::Float64, Operand::Integer32(1), &mut f), ArithOutcome::Float);
    assert_eq!(f.pc, 18);
    assert_eq!(AddF64::operation(Operand::Float64, Operand::Other, &mut f), ArithOutcome::Deopt);
    assert_deopted(&f, Opcode::Add);

    let mut f = frame(Opcode::SubF64);
    assert_eq!(SubF64::operation(Operand::Other, Operand::Float64, &mut f), ArithOutcome::Deopt);
    assert_deopted(&f, Opcode::Sub);

    let mut f = frame(Opcode::MulF64);
    assert_eq!(MulF64::operation(Operand::Integer32(2), Operand::Integer32(2), &mut f), ArithOutcome::Float);
    assert_eq!(MulF64::operation(Operand::Other, Operand::Other, &mut f), ArithOutcome::Deopt);
    assert_deopted(&f, Opcode::Mul);
}

/// Runs `op` at the warm site of `frame` once per pair, returning each outcome.
fn run_site(
    f: &mut Frame,
    op: fn(Operand, Operand, &mut Frame) -> ArithOutcome,
    pairs: &[(Operand, Operand)],
) -> Vec<ArithOutcome> {
    pairs.iter().map(|&(a, b)| op(a, b, f)).collect()
}

fn int_of(out: ArithOutcome) -> i32 {
    match out {
        ArithOutcome::Int(v) => v,
        other => panic!("expected an i32 result, got {:?}", other),
    }
}

#[test]
fn quicken_add_int_basic() {
    let mut f = frame(Opcode::AddInt);
    let mut sum: i32 = 0;
    for i in 0..20 {
        sum = int_of(AddInt::operation(Operand::Integer32(sum), Operand::Integer32(i), &mut f));
    }
    assert_eq!(sum, 190);
    assert_eq!(Opcode::decode(f.bytecode[5]), Opcode::AddInt);
}

#[test]
fn quicken_add_f64_basic() {
    let mut f = frame(Opcode::AddF64);
    let outs = run_site(&mut f, AddF64::operation, &[(Operand::Float64, Operand::Float64); 20]);
    assert!(outs.iter().all(|o| *o == ArithOutcome::Float));
    assert_eq!(Opcode::decode(f.bytecode[5]), Opcode::AddF64);
    assert_eq!(f.pc, 18);
}

#[test]
fn quicken_sub_int_basic() {
    let mut f = frame(Opcode::SubInt);
    let mut x: i32 = 100;
    for _ in 0..20 {
        x = int_of(SubInt::operation(Operand::Integer32(x), Operand::Integer32(1), &mut f));
    }
    assert_eq!(x, 80);
    assert_eq!(Opcode::decode(f.bytecode[5]), Opcode::SubInt);
}

#[test]
fn quicken_mul_int_basic() {
    let mut f = frame(Opcode::MulInt);
    let mut x: i32 = 1;
    for _ in 0..20 {
        x = int_of(MulInt::operation(Operand::Integer32(x), Operand::Integer32(1), &mut f));
    }
    assert_eq!(x, 1);
    assert_eq!(Opcode::decode(f.bytecode[5]), Opcode::MulInt);
}

#[test]
fn quicken_add_int_then_float_deopt() {
    let mut f = frame(Opcode::AddInt);
    for i in 0..10 {
        assert_eq!(
            AddInt::operation(Operand::Integer32(i), Operand::Integer32(1), &mut f),
            ArithOutcome::Int(i + 1)
        );
    }
    assert_eq!(AddInt::operation(Operand::Integer32(3), Operand::Float64, &mut f), ArithOutcome::Deopt);
    assert_deopted(&f, Opcode::Add);
}

#[test]
fn quicken_add_int_then_string_deopt() {
    let mut f = frame(Opcode::AddInt);
    for i in 0..10 {
        AddInt::operation(Operand::Integer32(i), Operand::Integer32(1), &mut f);
    }
    assert_eq!(AddInt::operation(Operand::Integer32(1), Operand::Other, &mut f), ArithOutcome::Deopt);
    assert_deopted(&f, Opcode::Add);
}

#[test]
fn quicken_add_f64_then_string_deopt() {
    let mut f = frame(Opcode::AddF64);
    let warm = run_site(&mut f, AddF64::operation, &[(Operand::Float64, Operand::Float64); 10]);
    assert!(warm.iter().all(|o| *o == ArithOutcome::Float));
    assert_eq!(AddF64::operation(Operand::Float64, Operand::Other, &mut f), ArithOutcome::Deopt);
    assert_deopted(&f, Opcode::Add);
}

#[test]
fn quicken_add_int_overflow() {
    let mut f = frame(Opcode::AddInt);
    for _ in 0..10 {
        assert_eq!(AddInt::operation(Operand::Integer32(1), Operand::Integer32(1), &mut f), ArithOutcome::Int(2));
    }
    let out = AddInt::operation(Operand::Integer32(2147483647), Operand::Integer32(1), &mut f);
    assert_eq!(out, ArithOutcome::Wide(2147483648));
    assert_deopted(&f, Opcode::Add);
}

#[test]
fn quicken_add_mixed_types() {
    let mut f = frame(Opcode::AddInt);
    let mut last = 0;
    for i in 0..10 {
        last = int_of(AddInt::operation(Operand::Integer32(i), Operand::Integer32(1), &mut f));
    }
    assert_eq!(last, 10);
    // A float pair sends the site back to the generic `Add`, which then
    // serves the int and string pairs that follow.
    assert_eq!(AddInt::operation(Operand::Float64, Operand::Float64, &mut f), ArithOutcome::Deopt);
    assert_deopted(&f, Opcode::Add);
}

#[test]
fn quicken_mul_negative_zero() {
    let mut f = frame(Opcode::MulInt);
    for i in 1..10 {
        assert_eq!(
            MulInt::operation(Operand::Integer32(i), Operand::Integer32(i), &mut f),
            ArithOutcome::Int(i * i)
        );
    }
    assert_eq!(
        MulInt::operation(Operand::Integer32(0), Operand::Integer32(-1), &mut f),
        ArithOutcome::NegativeZero
    );
    assert_eq!(Opcode::decode(f.bytecode[5]), Opcode::MulInt);
}

#[test]
fn quicken_sub_int_overflow() {
    let mut f = frame(Opcode::SubInt);
    for i in 0..10 {
        assert_eq!(
            SubInt::operation(Operand::Integer32(10), Operand::Integer32(i), &mut f),
            ArithOutcome::Int(10 - i)
        );
    }
    let out = SubInt::operation(Operand::Integer32(-2147483648), Operand::Integer32(1), &mut f);
    assert_eq!(out, ArithOutcome::Wide(-2147483649));
    assert_deopted(&f, Opcode::Sub);
}

#[test]
fn quicken_independent_sites() {
    // Two quickened `+` sites in one code block, at pcs 5 and 18.
    let mut emit = BytecodeEmitter::new();
    emit.emit_jump(boa_vm::bytecode::Address::new(5));
    emit.emit_binary(Opcode::AddInt, 0, 1, 2);
    emit.emit_binary(Opcode::AddInt, 3, 4, 5);
    let bytecode = emit.into_bytecode().bytes;
    let quicken_state = vec![QUICKEN_THRESHOLD; bytecode.len()];
    let second_pc = 18 + QUICKENED_INSN_SIZE as u32;
    let mut f = Frame { bytecode, quicken_state, pc: second_pc };

    // The second site meets non-numbers and deopts ...
    assert_eq!(AddInt::operation(Operand::Other, Operand::Other, &mut f), ArithOutcome::Deopt);
    assert_eq!(f.pc, 18);
    assert_eq!(Opcode::decode(f.bytecode[18]), Opcode::Add);
    assert_eq!(f.quicken_state[18], 0);
    // ... while the first stays quickened and keeps its fast path.
    assert_eq!(Opcode::decode(f.bytecode[5]), Opcode::AddInt);
    assert_eq!(f.quicken_state[5], QUICKEN_THRESHOLD);
    f.pc = 5 + QUICKENED_INSN_SIZE as u32;
    assert_eq!(AddInt::operation(Operand::Integer32(5), Operand::Integer32(3), &mut f), ArithOutcome::Int(8));
}
