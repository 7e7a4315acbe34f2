//! Bytecode encoding, decoding and the emitter.

use boa_vm::bytecode::{read_u32, write_u32, Address, Bytecode, BytecodeEmitter, Opcode};

#[test]
fn u32_round_trip_little_endian() {
    let mut bytes = vec![0u8; 8];
    write_u32(&mut bytes, 2, 0x1234_5678);
    assert_eq!(bytes, vec![0, 0, 0x78, 0x56, 0x34, 0x12, 0, 0]);
    assert_eq!(read_u32(&bytes, 2), 0x1234_5678);
    write_u32(&mut bytes, 4, u32::MAX);
    assert_eq!(read_u32(&bytes, 4), u32::MAX);
    assert_eq!(read_u32(&bytes, 0), 0x5678_0000);
}

#[test]
fn every_opcode_byte_decodes_back() {
    for b in 0u8..37 {
        assert_eq!(Opcode::decode(b).to_byte(), b);
    }
    assert_eq!(Opcode::Move.to_byte(), 0);
    assert_eq!(Opcode::decode(Opcode::JumpTable.to_byte()), Opcode::JumpTable);
}

#[test]
fn emitter_encodes_opcode_then_operands() {
    let mut emit = BytecodeEmitter::new();
    assert_eq!(u32::from(emit.next_opcode_location()), 0);
    emit.emit_move(1, 2);
    assert_eq!(u32::from(emit.next_opcode_location()), 9);
    emit.emit_get_property_by_name(3, 4, 5);
    emit.emit_push_from_register(6);
    let b = emit.into_bytecode();
    assert_eq!(b.bytes.len(), 9 + 13 + 5);
    assert_eq!(Opcode::decode(b.bytes[0]), Opcode::Move);
    assert_eq!(read_u32(&b.bytes, 1), 1);
    assert_eq!(read_u32(&b.bytes, 5), 2);
    assert_eq!(Opcode::decode(b.bytes[9]), Opcode::GetPropertyByName);
    assert_eq!(read_u32(&b.bytes, 18), 5);
    assert_eq!(b.next_instruction(0), 9);
    assert_eq!(b.next_instruction(9), 22);
    assert_eq!(b.next_instruction(22), 27);
}

#[test]
fn jump_table_length_follows_its_entries() {
    let mut emit = BytecodeEmitter::new();
    emit.emit_jump_table(7, &[Address::new(20), Address::new(30), Address::new(40)]);
    let b = emit.into_bytecode();
    assert_eq!(b.bytes.len(), 9 + 12);
    assert_eq!(read_u32(&b.bytes, 1), 7);
    assert_eq!(read_u32(&b.bytes, 5), 3);
    assert_eq!(read_u32(&b.bytes, 13), 30);
    assert_eq!(b.next_instruction(0), 21);
}

#[test]
fn patch_jump_overwrites_only_the_address() {
    let mut emit = BytecodeEmitter::new();
    let jump = emit.next_opcode_location();
    emit.emit_jump(Address::new(0));
    emit.emit_store_undefined(4);
    let target = emit.next_opcode_location();
    emit.patch_jump(jump, target);
    let b: Bytecode = emit.into_bytecode();
    assert_eq!(Opcode::decode(b.bytes[0]), Opcode::Jump);
    assert_eq!(read_u32(&b.bytes, 1), 10);
    assert_eq!(read_u32(&b.bytes, 6), 4);
}

#[test]
fn addresses_convert_both_ways() {
    let a = Address::new(17);
    assert_eq!(a.as_u32(), 17);
    assert_eq!(u32::from(a), 17);
    assert_eq!(Address::from(17u32), a);
}
