//! Move-elision analysis and rewriter, on bytecode built with the same
//! emitter the compiler uses. The "should not elide" cases encode the
//! ES §13.15.2 hazard the analysis exists to prevent.

use boa_vm::bytecode::{
    read_u32, Address, BytecodeEmitter, Handler, IndexOperand, Opcode, RegisterOperand,
};
use boa_vm::peephole::rewrite::elide_moves;
use boa_vm::peephole::{find_safe_move_elisions, Elision};
use thin_vec::ThinVec;

fn r(i: u32) -> RegisterOperand {
    RegisterOperand::from(i)
}

fn idx(i: u32) -> IndexOperand {
    IndexOperand::from(i)
}

#[test]
fn elides_safe_move_before_set_property_by_name() {
    // Move tmp, src; SetPropertyByName value, tmp, ic — tmp dead after.
    let mut emit = BytecodeEmitter::new();
    let move_pc = u32::from(emit.next_opcode_location());
    emit.emit_move(r(10), r(2));
    let op_pc = u32::from(emit.next_opcode_location());
    emit.emit_set_property_by_name(r(3), r(10), idx(0));

    let bytecode = emit.into_bytecode();
    let elisions = find_safe_move_elisions(&bytecode, &[]);

    assert_eq!(
        elisions,
        vec![Elision { move_pc, op_pc, src: r(2), dst: r(10), op_operand_idx: 1 }],
        "Move feeding SetPropertyByName should be elidable when tmp is dead after",
    );
}

#[test]
fn refuses_elision_when_dst_is_read_again() {
    // Move tmp, src; SetPropertyByName value, tmp; PushFromRegister tmp.
    let mut emit = BytecodeEmitter::new();
    emit.emit_move(r(10), r(2));
    emit.emit_set_property_by_name(r(3), r(10), idx(0));
    emit.emit_push_from_register(r(10));

    let elisions = find_safe_move_elisions(&emit.into_bytecode(), &[]);
    assert!(elisions.is_empty(), "elision should be refused when tmp is read later: {elisions:?}");
}

#[test]
fn allows_elision_when_dst_is_overwritten_before_read() {
    // tmp is overwritten by a later Move before anything reads it.
    let mut emit = BytecodeEmitter::new();
    let move_pc = u32::from(emit.next_opcode_location());
    emit.emit_move(r(10), r(2));
    let op_pc = u32::from(emit.next_opcode_location());
    emit.emit_set_property_by_name(r(3), r(10), idx(0));
    emit.emit_move(r(10), r(7));
    emit.emit_push_from_register(r(10));

    let elisions = find_safe_move_elisions(&emit.into_bytecode(), &[]);
    let first = elisions
        .iter()
        .find(|e| e.move_pc == move_pc)
        .copied()
        .expect("expected an elision for the first Move");
    assert_eq!(first, Elision { move_pc, op_pc, src: r(2), dst: r(10), op_operand_idx: 1 });
}

#[test]
fn refuses_elision_when_op_writes_dst() {
    // GetPropertyByName writes its dst: not a read substitution.
    let mut emit = BytecodeEmitter::new();
    emit.emit_move(r(10), r(2));
    emit.emit_get_property_by_name(r(10), r(3), idx(0));

    let elisions = find_safe_move_elisions(&emit.into_bytecode(), &[]);
    assert!(
        elisions.is_empty(),
        "GetPropertyByName writes its dst — elision refused as a Read substitution",
    );
}

#[test]
fn refuses_elision_when_next_op_is_unknown() {
    // StoreUndefined has no operand metadata: fail closed.
    let mut emit = BytecodeEmitter::new();
    emit.emit_move(r(10), r(2));
    emit.emit_store_undefined(r(11));

    let elisions = find_safe_move_elisions(&emit.into_bytecode(), &[]);
    assert!(elisions.is_empty(), "unknown next-op must abort the elision attempt");
}

#[test]
fn refuses_elision_when_subsequent_op_is_unknown() {
    // The forward dead-after scan meets an opcode without metadata.
    let mut emit = BytecodeEmitter::new();
    emit.emit_move(r(10), r(2));
    emit.emit_set_property_by_name(r(3), r(10), idx(0));
    emit.emit_store_undefined(r(99));

    let elisions = find_safe_move_elisions(&emit.into_bytecode(), &[]);
    assert!(elisions.is_empty(), "unknown opcode in forward scan must abort: {elisions:?}");
}

#[test]
fn refuses_elision_when_dst_appears_twice() {
    // tmp is both receiver and object of SetPropertyByNameWithThis.
    let mut emit = BytecodeEmitter::new();
    emit.emit_move(r(10), r(2));
    emit.emit_set_property_by_name_with_this(r(3), r(10), r(10), idx(0));

    let elisions = find_safe_move_elisions(&emit.into_bytecode(), &[]);
    assert!(elisions.is_empty(), "elision must refuse when tmp appears in multiple operand slots");
}

#[test]
fn finds_multiple_independent_elisions() {
    let mut emit = BytecodeEmitter::new();
    let m1 = u32::from(emit.next_opcode_location());
    emit.emit_move(r(10), r(2));
    let o1 = u32::from(emit.next_opcode_location());
    emit.emit_set_property_by_name(r(3), r(10), idx(0));
    let m2 = u32::from(emit.next_opcode_location());
    emit.emit_move(r(11), r(5));
    let o2 = u32::from(emit.next_opcode_location());
    emit.emit_set_property_by_name(r(6), r(11), idx(1));

    let elisions = find_safe_move_elisions(&emit.into_bytecode(), &[]);
    assert_eq!(elisions.len(), 2, "should find both elisions: {elisions:?}");
    assert_eq!(elisions[0].move_pc, m1);
    assert_eq!(elisions[0].op_pc, o1);
    assert_eq!(elisions[1].move_pc, m2);
    assert_eq!(elisions[1].op_pc, o2);
}

#[test]
fn refuses_elision_when_op_is_a_jump_target() {
    // A backward Jump lands on the Op, bypassing the Move.
    let mut emit = BytecodeEmitter::new();
    emit.emit_move(r(10), r(2));
    let op_pc = u32::from(emit.next_opcode_location());
    emit.emit_set_property_by_name(r(3), r(10), idx(0));
    let jump_pc = emit.next_opcode_location();
    emit.emit_jump(Address::new(0));
    emit.patch_jump(jump_pc, Address::new(op_pc));

    let elisions = find_safe_move_elisions(&emit.into_bytecode(), &[]);
    assert!(
        elisions.is_empty(),
        "must refuse: Op is reachable via a jump that bypasses the Move: {elisions:?}",
    );
}

#[test]
fn refuses_elision_when_op_is_a_handler_catch_entry() {
    // A handler's catch entry is the Op.
    let mut emit = BytecodeEmitter::new();
    emit.emit_move(r(10), r(2));
    let op_pc = u32::from(emit.next_opcode_location());
    emit.emit_set_property_by_name(r(3), r(10), idx(0));

    let handlers =
        [Handler { start: Address::new(0), end: Address::new(op_pc), environment_count: 0 }];
    let elisions = find_safe_move_elisions(&emit.into_bytecode(), &handlers);
    assert!(elisions.is_empty(), "must refuse: Op is a handler catch entry: {elisions:?}");
}

#[test]
fn rewriter_removes_move_patches_consumer_and_remaps_jump() {
    // A Jump past an elidable Move loses 9 from its address, the consumer
    // reads src, and the Move's bytes are gone.
    let mut emit = BytecodeEmitter::new();
    let jump_pc = emit.next_opcode_location();
    emit.emit_jump(Address::new(0));
    emit.emit_move(r(10), r(2));
    emit.emit_set_property_by_name(r(3), r(10), idx(0));
    let target = emit.next_opcode_location();
    emit.emit_push_from_register(r(3));
    emit.patch_jump(jump_pc, target);

    let old_target = u32::from(target);
    let bytecode = emit.into_bytecode();
    let old_len = bytecode.bytes.len();

    let rewritten = elide_moves(bytecode, ThinVec::new(), Vec::new());
    let out = &rewritten.bytecode.bytes;

    assert_eq!(out.len(), old_len - 9, "Move bytes should be removed");
    assert_eq!(
        read_u32(out, u32::from(jump_pc) as usize + 1),
        old_target - 9,
        "jump target must be decremented by the removed Move width",
    );
    assert_eq!(
        Opcode::decode(out[(old_target - 9) as usize]),
        Opcode::PushFromRegister,
        "remapped jump must still land on its intended instruction",
    );
    let consumer_pc = u32::from(jump_pc) as usize + 5;
    assert_eq!(Opcode::decode(out[consumer_pc]), Opcode::SetPropertyByName);
    assert_eq!(
        read_u32(out, consumer_pc + 1 + 4),
        u32::from(r(2)),
        "consumer operand must be retargeted from tmp (r10) to src (r2)",
    );
}
