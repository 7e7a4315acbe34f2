//! The byte-removal rewriter: jump tables, handler ranges and the source
//! map go through the offset map; without elisions nothing changes.

use boa_vm::bytecode::{read_u32, Address, BytecodeEmitter, Entry, Handler, Opcode, Position};
use boa_vm::peephole::operand_info::{operand_info, OperandRole};
use boa_vm::peephole::rewrite::{
    address_kind, elide_moves, elide_moves_with_handlers, for_each_address_slot, jump_targets, AddrKind,
};
use boa_vm::peephole::{decode_all, dst_dead_after, find_safe_move_elisions};
use thin_vec::ThinVec;

fn pos(line: u32) -> Position {
    Position { line, column: 1 }
}

/// `JumpTable [39, 44]; Move r10, r2; SetPropertyByName r3, r10; PushFromRegister r3`
fn table_program() -> BytecodeEmitter {
    let mut emit = BytecodeEmitter::new();
    emit.emit_jump_table(0, &[Address::new(39), Address::new(44)]);
    emit.emit_move(10, 2);
    emit.emit_set_property_by_name(3, 10, 0);
    emit.emit_push_from_register(3);
    emit
}

#[test]
fn jump_tables_handlers_and_source_map_are_remapped() {
    let bytecode = table_program().into_bytecode();
    assert_eq!(bytecode.bytes.len(), 44);
    let mut handlers = ThinVec::new();
    handlers.push(Handler { start: Address::new(0), end: Address::new(39), environment_count: 2 });
    let entries = vec![
        Entry { pc: 0, position: pos(1) },
        Entry { pc: 17, position: pos(2) },
        Entry { pc: 26, position: pos(3) },
        Entry { pc: 39, position: pos(4) },
    ];
    let r = elide_moves(bytecode, handlers, entries);
    let out = &r.bytecode.bytes;
    assert_eq!(out.len(), 35);
    assert_eq!(Opcode::decode(out[0]), Opcode::JumpTable);
    assert_eq!(read_u32(out, 5), 2);
    assert_eq!(read_u32(out, 9), 30);
    assert_eq!(read_u32(out, 13), 35);
    assert_eq!(Opcode::decode(out[17]), Opcode::SetPropertyByName);
    assert_eq!(read_u32(out, 22), 2);
    assert_eq!(Opcode::decode(out[30]), Opcode::PushFromRegister);
    assert_eq!(r.handlers.len(), 1);
    assert_eq!(
        r.handlers[0],
        Handler { start: Address::new(0), end: Address::new(30), environment_count: 2 }
    );
    assert_eq!(
        r.source_entries,
        vec![
            Entry { pc: 0, position: pos(1) },
            Entry { pc: 17, position: pos(3) },
            Entry { pc: 30, position: pos(4) },
        ]
    );
}

#[test]
fn handlers_given_as_a_slice_are_remapped_too() {
    let bytecode = table_program().into_bytecode();
    let handlers = [Handler { start: Address::new(0), end: Address::new(39), environment_count: 2 }];
    let r = elide_moves_with_handlers(bytecode, &handlers, vec![Entry { pc: 39, position: pos(4) }]);
    assert_eq!(r.bytecode.bytes.len(), 35);
    assert_eq!(
        r.handlers.as_slice(),
        &[Handler { start: Address::new(0), end: Address::new(30), environment_count: 2 }]
    );
    assert_eq!(r.source_entries, vec![Entry { pc: 30, position: pos(4) }]);
}

#[test]
fn nothing_changes_without_elisions() {
    let mut emit = BytecodeEmitter::new();
    emit.emit_move(10, 2);
    emit.emit_push_from_register(10);
    emit.emit_push_from_register(10);
    let bytecode = emit.into_bytecode();
    let before = bytecode.bytes.clone();
    let entries = vec![Entry { pc: 9, position: pos(7) }, Entry { pc: 9, position: pos(8) }];
    let r = elide_moves(bytecode, ThinVec::new(), entries.clone());
    assert_eq!(r.bytecode.bytes, before);
    assert!(r.handlers.is_empty());
    assert_eq!(r.source_entries, entries);
}

#[test]
fn address_slots_and_jump_targets() {
    let mut emit = table_program();
    let jump = emit.next_opcode_location();
    emit.emit_jump(Address::new(17));
    let bytecode = emit.into_bytecode();
    let slots = for_each_address_slot(&bytecode);
    assert_eq!(slots, vec![9, 13, 45]);
    let handlers = [Handler { start: Address::new(44), end: Address::new(0), environment_count: 0 }];
    assert_eq!(jump_targets(&bytecode, &handlers), vec![0, 17, 39, 44]);
    assert_eq!(u32::from(jump), 44);
    // The Move is now a jump target: no elision.
    assert!(find_safe_move_elisions(&bytecode, &[]).is_empty());
}

#[test]
fn address_kinds_of_opcodes() {
    assert_eq!(address_kind(Opcode::Jump), AddrKind::Single);
    assert_eq!(address_kind(Opcode::JumpIfNotEqual), AddrKind::Single);
    assert_eq!(address_kind(Opcode::Coalesce), AddrKind::Single);
    assert_eq!(address_kind(Opcode::JumpTable), AddrKind::Table);
    assert_eq!(address_kind(Opcode::Move), AddrKind::NoAddress);
    assert_eq!(address_kind(Opcode::Add), AddrKind::NoAddress);
}

#[test]
fn operand_roles_of_the_whitelist() {
    assert_eq!(
        operand_info(Opcode::GetPropertyByName),
        Some(vec![OperandRole::Write, OperandRole::Read])
    );
    assert_eq!(
        operand_info(Opcode::SetPropertyByNameWithThis),
        Some(vec![OperandRole::Read, OperandRole::Read, OperandRole::Read])
    );
    assert_eq!(operand_info(Opcode::StoreUndefined), None);
    assert_eq!(operand_info(Opcode::Move), None);
}

#[test]
fn decoding_and_dead_after() {
    let mut emit = BytecodeEmitter::new();
    emit.emit_move(10, 2);
    emit.emit_set_property_by_name(3, 10, 0);
    emit.emit_get_property_by_name(10, 4, 1);
    emit.emit_push_from_register(10);
    let bytecode = emit.into_bytecode();
    let decoded = decode_all(&bytecode);
    let pcs: Vec<u32> = decoded.iter().map(|(pc, _)| *pc).collect();
    assert_eq!(pcs, vec![0, 9, 22, 35]);
    // r10 is overwritten by GetPropertyByName before PushFromRegister reads it.
    assert!(dst_dead_after(&decoded, 1, 10));
    // r4 is read by GetPropertyByName.
    assert!(!dst_dead_after(&decoded, 1, 4));
    // Nothing after the last instruction reads anything.
    assert!(dst_dead_after(&decoded, 3, 10));
    let elisions = find_safe_move_elisions(&bytecode, &[]);
    assert_eq!(elisions.len(), 1);
    assert_eq!(elisions[0].op_operand_idx, 1);
}
