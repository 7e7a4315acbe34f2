//! The bytecode format: opcodes, their byte encoding and operand layout,
//! the well-formedness of a bytecode buffer, and an emitter that appends
//! encoded instructions.
//!
//! Every instruction is one opcode byte followed by its operands. Register
//! operands, index operands and addresses are little-endian `u32`s. Jump
//! addresses are absolute byte offsets into the buffer. `JumpTable` is the
//! only variable-length instruction: `[op][index: u32][len: u32][addr; len]`.
use vstd::prelude::*;

verus! {

/// A register number, encoded as a little-endian `u32`.
pub type RegisterOperand = u32;

/// An index into a code block table (inline caches, constants, bindings).
pub type IndexOperand = u32;

/// An absolute byte offset into a bytecode buffer.
#[derive(Clone, Copy, Debug, PartialEq, Eq, Structural)]
pub struct Address(pub u32);

impl Address {
    pub fn new(value: u32) -> (a: Address)
        ensures
            a.0 == value,
    {
        Address(value)
    }

    pub fn as_u32(&self) -> (v: u32)
        ensures
            v == self.0,
    {
        self.0
    }
}

impl From<Address> for u32 {
    fn from(a: Address) -> (v: u32) {
        a.0
    }
}

impl vstd::std_specs::convert::FromSpecImpl<Address> for u32 {
    open spec fn obeys_from_spec() -> bool {
        true
    }

    open spec fn from_spec(v: Address) -> u32 {
        v.0
    }
}

impl From<u32> for Address {
    fn from(v: u32) -> (a: Address) {
        Address(v)
    }
}

impl vstd::std_specs::convert::FromSpecImpl<u32> for Address {
    open spec fn obeys_from_spec() -> bool {
        true
    }

    open spec fn from_spec(v: u32) -> Address {
        Address(v)
    }
}

/// The opcodes this bytecode model knows about.
#[derive(Clone, Copy, Debug, PartialEq, Eq, Structural)]
pub enum Opcode {
    Move,
    GetPropertyByName,
    GetPropertyByNameWithThis,
    SetPropertyByName,
    SetPropertyByNameWithThis,
    DefineOwnPropertyByName,
    SetAccumulator,
    SetRegisterFromAccumulator,
    PopIntoRegister,
    PushFromRegister,
    StoreUndefined,
    Jump,
    JumpIfTrue,
    JumpIfFalse,
    JumpIfNotUndefined,
    JumpIfNullOrUndefined,
    JumpIfNotLessThan,
    JumpIfNotLessThanOrEqual,
    JumpIfNotGreaterThan,
    JumpIfNotGreaterThanOrEqual,
    JumpIfNotEqual,
    Case,
    TemplateLookup,
    LogicalAnd,
    LogicalOr,
    Coalesce,
    JumpTable,
    Add,
    Sub,
    Mul,
    AddInt,
    AddF64,
    SubInt,
    SubF64,
    MulInt,
    MulF64,
    Return,
}

/// Number of opcodes; every byte below this value encodes an opcode.
pub const OPCODE_COUNT: u8 = 37;

/// Whether `b` is the encoding of some opcode.
pub open spec fn is_opcode_byte(b: u8) -> bool {
    b < OPCODE_COUNT
}

impl Opcode {
    /// The byte that encodes this opcode.
    pub open spec fn spec_byte(self) -> u8 {
        match self {
            Opcode::Move => 0,
            Opcode::GetPropertyByName => 1,
            Opcode::GetPropertyByNameWithThis => 2,
            Opcode::SetPropertyByName => 3,
            Opcode::SetPropertyByNameWithThis => 4,
            Opcode::DefineOwnPropertyByName => 5,
            Opcode::SetAccumulator => 6,
            Opcode::SetRegisterFromAccumulator => 7,
            Opcode::PopIntoRegister => 8,
            Opcode::PushFromRegister => 9,
            Opcode::StoreUndefined => 10,
            Opcode::Jump => 11,
            Opcode::JumpIfTrue => 12,
            Opcode::JumpIfFalse => 13,
            Opcode::JumpIfNotUndefined => 14,
            Opcode::JumpIfNullOrUndefined => 15,
            Opcode::JumpIfNotLessThan => 16,
            Opcode::JumpIfNotLessThanOrEqual => 17,
            Opcode::JumpIfNotGreaterThan => 18,
            Opcode::JumpIfNotGreaterThanOrEqual => 19,
            Opcode::JumpIfNotEqual => 20,
            Opcode::Case => 21,
            Opcode::TemplateLookup => 22,
            Opcode::LogicalAnd => 23,
            Opcode::LogicalOr => 24,
            Opcode::Coalesce => 25,
            Opcode::JumpTable => 26,
            Opcode::Add => 27,
            Opcode::Sub => 28,
            Opcode::Mul => 29,
            Opcode::AddInt => 30,
            Opcode::AddF64 => 31,
            Opcode::SubInt => 32,
            Opcode::SubF64 => 33,
            Opcode::MulInt => 34,
            Opcode::MulF64 => 35,
            Opcode::Return => 36,
        }
    }

    /// The opcode that a byte encodes (`Return` for bytes that encode none).
    pub open spec fn spec_decode(b: u8) -> Opcode {
        match b {
            0 => Opcode::Move,
            1 => Opcode::GetPropertyByName,
            2 => Opcode::GetPropertyByNameWithThis,
            3 => Opcode::SetPropertyByName,
            4 => Opcode::SetPropertyByNameWithThis,
            5 => Opcode::DefineOwnPropertyByName,
            6 => Opcode::SetAccumulator,
            7 => Opcode::SetRegisterFromAccumulator,
            8 => Opcode::PopIntoRegister,
            9 => Opcode::PushFromRegister,
            10 => Opcode::StoreUndefined,
            11 => Opcode::Jump,
            12 => Opcode::JumpIfTrue,
            13 => Opcode::JumpIfFalse,
            14 => Opcode::JumpIfNotUndefined,
            15 => Opcode::JumpIfNullOrUndefined,
            16 => Opcode::JumpIfNotLessThan,
            17 => Opcode::JumpIfNotLessThanOrEqual,
            18 => Opcode::JumpIfNotGreaterThan,
            19 => Opcode::JumpIfNotGreaterThanOrEqual,
            20 => Opcode::JumpIfNotEqual,
            21 => Opcode::Case,
            22 => Opcode::TemplateLookup,
            23 => Opcode::LogicalAnd,
            24 => Opcode::LogicalOr,
            25 => Opcode::Coalesce,
            26 => Opcode::JumpTable,
            27 => Opcode::Add,
            28 => Opcode::Sub,
            29 => Opcode::Mul,
            30 => Opcode::AddInt,
            31 => Opcode::AddF64,
            32 => Opcode::SubInt,
            33 => Opcode::SubF64,
            34 => Opcode::MulInt,
            35 => Opcode::MulF64,
            _ => Opcode::Return,
        }
    }

    /// Encode the opcode as its byte.
    pub fn to_byte(self) -> (b: u8)
        ensures
            b == self.spec_byte(),
            is_opcode_byte(b),
            Opcode::spec_decode(b) == self,
    {
        match self {
            Opcode::Move => 0,
            Opcode::GetPropertyByName => 1,
            Opcode::GetPropertyByNameWithThis => 2,
            Opcode::SetPropertyByName => 3,
            Opcode::SetPropertyByNameWithThis => 4,
            Opcode::DefineOwnPropertyByName => 5,
            Opcode::SetAccumulator => 6,
            Opcode::SetRegisterFromAccumulator => 7,
            Opcode::PopIntoRegister => 8,
            Opcode::PushFromRegister => 9,
            Opcode::StoreUndefined => 10,
            Opcode::Jump => 11,
            Opcode::JumpIfTrue => 12,
            Opcode::JumpIfFalse => 13,
            Opcode::JumpIfNotUndefined => 14,
            Opcode::JumpIfNullOrUndefined => 15,
            Opcode::JumpIfNotLessThan => 16,
            Opcode::JumpIfNotLessThanOrEqual => 17,
            Opcode::JumpIfNotGreaterThan => 18,
            Opcode::JumpIfNotGreaterThanOrEqual => 19,
            Opcode::JumpIfNotEqual => 20,
            Opcode::Case => 21,
            Opcode::TemplateLookup => 22,
            Opcode::LogicalAnd => 23,
            Opcode::LogicalOr => 24,
            Opcode::Coalesce => 25,
            Opcode::JumpTable => 26,
            Opcode::Add => 27,
            Opcode::Sub => 28,
            Opcode::Mul => 29,
            Opcode::AddInt => 30,
            Opcode::AddF64 => 31,
            Opcode::SubInt => 32,
            Opcode::SubF64 => 33,
            Opcode::MulInt => 34,
            Opcode::MulF64 => 35,
            Opcode::Return => 36,
        }
    }

    /// Decode an opcode byte.
    pub fn decode(b: u8) -> (op: Opcode)
        requires
            is_opcode_byte(b),
        ensures
            op == Opcode::spec_decode(b),
            op.spec_byte() == b,
    {
        match b {
            0 => Opcode::Move,
            1 => Opcode::GetPropertyByName,
            2 => Opcode::GetPropertyByNameWithThis,
            3 => Opcode::SetPropertyByName,
            4 => Opcode::SetPropertyByNameWithThis,
            5 => Opcode::DefineOwnPropertyByName,
            6 => Opcode::SetAccumulator,
            7 => Opcode::SetRegisterFromAccumulator,
            8 => Opcode::PopIntoRegister,
            9 => Opcode::PushFromRegister,
            10 => Opcode::StoreUndefined,
            11 => Opcode::Jump,
            12 => Opcode::JumpIfTrue,
            13 => Opcode::JumpIfFalse,
            14 => Opcode::JumpIfNotUndefined,
            15 => Opcode::JumpIfNullOrUndefined,
            16 => Opcode::JumpIfNotLessThan,
            17 => Opcode::JumpIfNotLessThanOrEqual,
            18 => Opcode::JumpIfNotGreaterThan,
            19 => Opcode::JumpIfNotGreaterThanOrEqual,
            20 => Opcode::JumpIfNotEqual,
            21 => Opcode::Case,
            22 => Opcode::TemplateLookup,
            23 => Opcode::LogicalAnd,
            24 => Opcode::LogicalOr,
            25 => Opcode::Coalesce,
            26 => Opcode::JumpTable,
            27 => Opcode::Add,
            28 => Opcode::Sub,
            29 => Opcode::Mul,
            30 => Opcode::AddInt,
            31 => Opcode::AddF64,
            32 => Opcode::SubInt,
            33 => Opcode::SubF64,
            34 => Opcode::MulInt,
            35 => Opcode::MulF64,
            _ => Opcode::Return,
        }
    }

    /// Number of operand bytes of a fixed-length opcode. For `JumpTable`
    /// this is the header (`index` and `len`) without the address array.
    pub open spec fn spec_fixed_operand_bytes(self) -> nat {
        match self {
            Opcode::Move => 8,
            Opcode::GetPropertyByName => 12,
            Opcode::GetPropertyByNameWithThis => 16,
            Opcode::SetPropertyByName => 12,
            Opcode::SetPropertyByNameWithThis => 16,
            Opcode::DefineOwnPropertyByName => 12,
            Opcode::SetAccumulator => 4,
            Opcode::SetRegisterFromAccumulator => 4,
            Opcode::PopIntoRegister => 4,
            Opcode::PushFromRegister => 4,
            Opcode::StoreUndefined => 4,
            Opcode::Jump => 4,
            Opcode::JumpIfTrue => 8,
            Opcode::JumpIfFalse => 8,
            Opcode::JumpIfNotUndefined => 8,
            Opcode::JumpIfNullOrUndefined => 8,
            Opcode::JumpIfNotLessThan => 12,
            Opcode::JumpIfNotLessThanOrEqual => 12,
            Opcode::JumpIfNotGreaterThan => 12,
            Opcode::JumpIfNotGreaterThanOrEqual => 12,
            Opcode::JumpIfNotEqual => 12,
            Opcode::Case => 12,
            Opcode::TemplateLookup => 16,
            Opcode::LogicalAnd => 8,
            Opcode::LogicalOr => 8,
            Opcode::Coalesce => 8,
            Opcode::JumpTable => 8,
            Opcode::Add => 12,
            Opcode::Sub => 12,
            Opcode::Mul => 12,
            Opcode::AddInt => 12,
            Opcode::AddF64 => 12,
            Opcode::SubInt => 12,
            Opcode::SubF64 => 12,
            Opcode::MulInt => 12,
            Opcode::MulF64 => 12,
            Opcode::Return => 0,
        }
    }

    pub fn fixed_operand_bytes(self) -> (n: usize)
        ensures
            n == self.spec_fixed_operand_bytes(),
    {
        match self {
            Opcode::Move => 8,
            Opcode::GetPropertyByName => 12,
            Opcode::GetPropertyByNameWithThis => 16,
            Opcode::SetPropertyByName => 12,
            Opcode::SetPropertyByNameWithThis => 16,
            Opcode::DefineOwnPropertyByName => 12,
            Opcode::SetAccumulator => 4,
            Opcode::SetRegisterFromAccumulator => 4,
            Opcode::PopIntoRegister => 4,
            Opcode::PushFromRegister => 4,
            Opcode::StoreUndefined => 4,
            Opcode::Jump => 4,
            Opcode::JumpIfTrue => 8,
            Opcode::JumpIfFalse => 8,
            Opcode::JumpIfNotUndefined => 8,
            Opcode::JumpIfNullOrUndefined => 8,
            Opcode::JumpIfNotLessThan => 12,
            Opcode::JumpIfNotLessThanOrEqual => 12,
            Opcode::JumpIfNotGreaterThan => 12,
            Opcode::JumpIfNotGreaterThanOrEqual => 12,
            Opcode::JumpIfNotEqual => 12,
            Opcode::Case => 12,
            Opcode::TemplateLookup => 16,
            Opcode::LogicalAnd => 8,
            Opcode::LogicalOr => 8,
            Opcode::Coalesce => 8,
            Opcode::JumpTable => 8,
            Opcode::Add => 12,
            Opcode::Sub => 12,
            Opcode::Mul => 12,
            Opcode::AddInt => 12,
            Opcode::AddF64 => 12,
            Opcode::SubInt => 12,
            Opcode::SubF64 => 12,
            Opcode::MulInt => 12,
            Opcode::MulF64 => 12,
            Opcode::Return => 0,
        }
    }
}

/// The little-endian `u32` stored at `pos..pos + 4`.
pub open spec fn le_u32(s: Seq<u8>, pos: int) -> u32 {
    (s[pos] as int + s[pos + 1] as int * 256 + s[pos + 2] as int * 65536 + s[pos + 3] as int
        * 16777216) as u32
}

/// The four little-endian bytes of `v`.
pub open spec fn le_bytes(v: u32) -> Seq<u8> {
    seq![
        (v % 256) as u8,
        ((v / 256) % 256) as u8,
        ((v / 65536) % 256) as u8,
        (v / 16777216) as u8,
    ]
}

/// Decoding the encoding of `v` gives `v` back, at any offset.
pub proof fn lemma_le_roundtrip(s: Seq<u8>, pos: int, v: u32)
    requires
        0 <= pos,
        pos + 4 <= s.len(),
        s.subrange(pos, pos + 4) == le_bytes(v),
    ensures
        le_u32(s, pos) == v,
{
    assert(s[pos] == le_bytes(v)[0]);
    assert(s[pos + 1] == le_bytes(v)[1]);
    assert(s[pos + 2] == le_bytes(v)[2]);
    assert(s[pos + 3] == le_bytes(v)[3]);
    let x = v as int;
    assert(x % 256 + (x / 256) % 256 * 256 + (x / 65536) % 256 * 65536 + (x / 16777216)
        * 16777216 == x) by (nonlinear_arith)
        requires
            0 <= x < 0x1_0000_0000,
    ;
}

/// `x` with the four bytes at `pos` replaced by the encoding of `v`.
pub open spec fn seq_write(x: Seq<u8>, pos: int, v: u32) -> Seq<u8> {
    x.subrange(0, pos) + le_bytes(v) + x.subrange(pos + 4, x.len() as int)
}

/// Writing into the second part of a concatenation leaves the first part.
pub proof fn lemma_write_shift(a: Seq<u8>, x: Seq<u8>, p: int, v: u32)
    requires
        0 <= p,
        p + 4 <= x.len(),
    ensures
        seq_write(a + x, a.len() + p, v) == a + seq_write(x, p, v),
        le_u32(a + x, a.len() + p) == le_u32(x, p),
{
    assert(seq_write(a + x, a.len() + p, v) =~= a + seq_write(x, p, v));
    assert((a + x)[a.len() + p] == x[p]);
    assert((a + x)[a.len() + p + 1] == x[p + 1]);
    assert((a + x)[a.len() + p + 2] == x[p + 2]);
    assert((a + x)[a.len() + p + 3] == x[p + 3]);
}

/// Reading back what was just written.
pub proof fn lemma_write_read(x: Seq<u8>, p: int, v: u32)
    requires
        0 <= p,
        p + 4 <= x.len(),
    ensures
        le_u32(seq_write(x, p, v), p) == v,
        seq_write(x, p, v).len() == x.len(),
        forall|i: int|
            0 <= i < x.len() && !(p <= i < p + 4) ==> #[trigger] seq_write(x, p, v)[i] == x[i],
{
    let y = seq_write(x, p, v);
    assert(y.subrange(p, p + 4) =~= le_bytes(v));
    lemma_le_roundtrip(y, p, v);
}

/// The opcode of the instruction starting at `pc`.
pub open spec fn op_at(s: Seq<u8>, pc: int) -> Opcode {
    Opcode::spec_decode(s[pc])
}

/// Length in bytes of the instruction starting at `pc`.
pub open spec fn instr_len(s: Seq<u8>, pc: int) -> int {
    if op_at(s, pc) == Opcode::JumpTable {
        9 + 4 * le_u32(s, pc + 5)
    } else {
        1 + op_at(s, pc).spec_fixed_operand_bytes() as int
    }
}

/// The instruction at `pc` has a valid opcode and fits in the buffer.
pub open spec fn instr_ok(s: Seq<u8>, pc: int) -> bool {
    &&& 0 <= pc < s.len()
    &&& is_opcode_byte(s[pc])
    &&& op_at(s, pc) == Opcode::JumpTable ==> pc + 9 <= s.len()
    &&& pc + instr_len(s, pc) <= s.len()
}

/// Walking the instructions from `pc` ends exactly at the end of the buffer.
pub open spec fn wf_from(s: Seq<u8>, pc: int) -> bool
    decreases s.len() - pc,
{
    if pc < 0 || pc >= s.len() {
        pc == s.len()
    } else {
        instr_ok(s, pc) && wf_from(s, pc + instr_len(s, pc))
    }
}

/// The instruction start offsets met when walking from `pc`.
pub open spec fn starts_from(s: Seq<u8>, pc: int) -> Seq<int>
    decreases s.len() - pc,
{
    if 0 <= pc < s.len() && instr_ok(s, pc) {
        seq![pc] + starts_from(s, pc + instr_len(s, pc))
    } else {
        seq![]
    }
}

/// The instruction starts met from `pc` are increasing, valid instructions,
/// each followed by the next one, and the walk of a well-formed buffer ends
/// exactly at its end.
pub proof fn lemma_starts(s: Seq<u8>, pc: int)
    requires
        0 <= pc,
    ensures
        forall|i: int|
            0 <= i < starts_from(s, pc).len() ==> pc <= #[trigger] starts_from(s, pc)[i] < s.len()
                && instr_ok(s, starts_from(s, pc)[i]),
        forall|i: int, j: int|
            0 <= i < j < starts_from(s, pc).len() ==> starts_from(s, pc)[i] < starts_from(
                s,
                pc,
            )[j],
        forall|i: int|
            #![trigger starts_from(s, pc)[i]]
            0 <= i < starts_from(s, pc).len() - 1 ==> starts_from(s, pc)[i + 1] == starts_from(
                s,
                pc,
            )[i] + instr_len(s, starts_from(s, pc)[i]),
        starts_from(s, pc).len() > 0 ==> starts_from(s, pc)[0] == pc,
        wf_from(s, pc) && starts_from(s, pc).len() > 0 ==> starts_from(s, pc).last() + instr_len(
            s,
            starts_from(s, pc).last(),
        ) == s.len(),
        wf_from(s, pc) && starts_from(s, pc).len() == 0 ==> pc == s.len(),
    decreases s.len() - pc,
{
    if 0 <= pc < s.len() && instr_ok(s, pc) {
        let next = pc + instr_len(s, pc);
        lemma_starts(s, next);
        let st = starts_from(s, pc);
        let rest = starts_from(s, next);
        assert(st == seq![pc] + rest);
        assert forall|i: int, j: int| 0 <= i < j < st.len() implies st[i] < st[j] by {
            if i > 0 {
                assert(st[i] == rest[i - 1]);
                assert(st[j] == rest[j - 1]);
            } else {
                assert(st[j] == rest[j - 1]);
            }
        }
        assert forall|i: int| #![trigger st[i]] 0 <= i < st.len() - 1 implies st[i + 1] == st[i]
            + instr_len(s, st[i]) by {
            if i > 0 {
                assert(st[i] == rest[i - 1]);
                assert(st[i + 1] == rest[i]);
                assert(rest[i - 1] == rest[i - 1]);
            } else {
                assert(st[1] == rest[0]);
            }
        }
        assert forall|i: int| 0 <= i < st.len() implies pc <= #[trigger] st[i] < s.len()
            && instr_ok(s, st[i]) by {
            if i > 0 {
                assert(st[i] == rest[i - 1]);
            }
        }
        if rest.len() > 0 {
            assert(st.last() == rest.last());
        }
    }
}

/// An exception handler: the protected range `start..end`, whose catch
/// entry is `end`.
#[derive(Clone, Copy, Debug, PartialEq, Eq, Structural)]
pub struct Handler {
    pub start: Address,
    pub end: Address,
    pub environment_count: u32,
}

/// A source position (line and column).
#[derive(Clone, Copy, Debug, PartialEq, Eq, Structural)]
pub struct Position {
    pub line: u32,
    pub column: u32,
}

/// A source-map entry: the instruction at `pc` and following ones come from
/// `position`.
#[derive(Clone, Copy, Debug, PartialEq, Eq, Structural)]
pub struct Entry {
    pub pc: u32,
    pub position: Position,
}

/// A buffer of encoded instructions.
#[derive(Clone, Debug)]
pub struct Bytecode {
    pub bytes: Vec<u8>,
}

impl Bytecode {
    /// Well-formed: addressable by `u32` and decodes instruction by
    /// instruction exactly to its end.
    pub open spec fn wf(&self) -> bool {
        &&& self.bytes@.len() <= u32::MAX
        &&& wf_from(self.bytes@, 0)
    }

    /// Offset of the instruction after the one starting at `pc`.
    pub fn next_instruction(&self, pc: usize) -> (next: usize)
        requires
            instr_ok(self.bytes@, pc as int),
        ensures
            next == pc + instr_len(self.bytes@, pc as int),
    {
        let _n = self.bytes.len();
        let op = Opcode::decode(self.bytes[pc]);
        if op == Opcode::JumpTable {
            let len = read_u32(&self.bytes, pc + 5);
            pc + 9 + 4 * (len as usize)
        } else {
            pc + 1 + op.fixed_operand_bytes()
        }
    }
}

/// Read the little-endian `u32` at `pos`.
pub fn read_u32(bytes: &[u8], pos: usize) -> (v: u32)
    requires
        pos + 4 <= bytes@.len(),
    ensures
        v == le_u32(bytes@, pos as int),
{
    bytes[pos] as u32 + (bytes[pos + 1] as u32) * 256 + (bytes[pos + 2] as u32) * 65536 + (bytes[pos
        + 3] as u32) * 16777216
}

/// Overwrite the four bytes at `pos` with the little-endian encoding of `value`.
pub fn write_u32(bytes: &mut Vec<u8>, pos: usize, value: u32)
    requires
        pos + 4 <= old(bytes)@.len(),
    ensures
        final(bytes)@.len() == old(bytes)@.len(),
        final(bytes)@ == seq_write(old(bytes)@, pos as int, value),
        final(bytes)@.subrange(pos as int, pos + 4) == le_bytes(value),
        final(bytes)@ == old(bytes)@.subrange(0, pos as int) + le_bytes(value) + old(
            bytes,
        )@.subrange(pos + 4, old(bytes)@.len() as int),
        le_u32(final(bytes)@, pos as int) == value,
        forall|i: int|
            0 <= i < old(bytes)@.len() && !(pos <= i < pos + 4) ==> #[trigger] final(bytes)@[i]
                == old(bytes)@[i],
{
    let _n = bytes.len();
    bytes.set(pos, (value % 256) as u8);
    bytes.set(pos + 1, ((value / 256) % 256) as u8);
    bytes.set(pos + 2, ((value / 65536) % 256) as u8);
    bytes.set(pos + 3, (value / 16777216) as u8);
    proof {
        assert(bytes@.subrange(pos as int, pos + 4) =~= le_bytes(value));
        assert(bytes@ =~= old(bytes)@.subrange(0, pos as int) + le_bytes(value) + old(
            bytes,
        )@.subrange(pos + 4, old(bytes)@.len() as int));
        lemma_le_roundtrip(bytes@, pos as int, value);
    }
}

/// Append the little-endian encoding of `value`.
pub fn push_u32(bytes: &mut Vec<u8>, value: u32)
    ensures
        final(bytes)@ == old(bytes)@ + le_bytes(value),
{
    bytes.push((value % 256) as u8);
    bytes.push(((value / 256) % 256) as u8);
    bytes.push(((value / 65536) % 256) as u8);
    bytes.push((value / 16777216) as u8);
    assert(bytes@ =~= old(bytes)@ + le_bytes(value));
}

/// The encoding of an instruction with opcode `op` and `u32` operands `args`.
pub open spec fn encode(op: Opcode, args: Seq<u32>) -> Seq<u8>
    decreases args.len(),
{
    if args.len() == 0 {
        seq![op.spec_byte()]
    } else {
        encode(op, args.drop_last()) + le_bytes(args.last())
    }
}

/// An opcode's byte decodes back to it.
pub proof fn lemma_byte_decodes(op: Opcode)
    ensures
        is_opcode_byte(op.spec_byte()),
        Opcode::spec_decode(op.spec_byte()) == op,
{
}

/// An encoding is the opcode byte followed by the operands, four
/// little-endian bytes each.
pub proof fn lemma_encode_facts(op: Opcode, args: Seq<u32>)
    ensures
        encode(op, args).len() == 1 + 4 * args.len(),
        encode(op, args)[0] == op.spec_byte(),
        forall|i: int| 0 <= i < args.len() ==> #[trigger] le_u32(encode(op, args), 1 + 4 * i) == args[i],
    decreases args.len(),
{
    if args.len() > 0 {
        let prev = encode(op, args.drop_last());
        lemma_encode_facts(op, args.drop_last());
        let e = encode(op, args);
        assert(e == prev + le_bytes(args.last()));
        assert forall|i: int| 0 <= i < args.len() implies #[trigger] le_u32(e, 1 + 4 * i) == args[i] by {
            if i < args.len() - 1 {
                assert(e[1 + 4 * i] == prev[1 + 4 * i]);
                assert(e[1 + 4 * i + 1] == prev[1 + 4 * i + 1]);
                assert(e[1 + 4 * i + 2] == prev[1 + 4 * i + 2]);
                assert(e[1 + 4 * i + 3] == prev[1 + 4 * i + 3]);
                assert(le_u32(prev, 1 + 4 * i) == args.drop_last()[i]);
            } else {
                assert(e.subrange(1 + 4 * i, 1 + 4 * i + 4) =~= le_bytes(args.last()));
                lemma_le_roundtrip(e, 1 + 4 * i, args.last());
            }
        }
    }
}

/// Operands that fit the opcode: as many register-sized operands as its
/// fixed layout has, or for a jump table its index, its length and that
/// many addresses.
pub open spec fn operands_fit(op: Opcode, args: Seq<u32>) -> bool {
    if op == Opcode::JumpTable {
        args.len() >= 2 && args[1] as int == args.len() - 2
    } else {
        4 * args.len() == op.spec_fixed_operand_bytes()
    }
}

/// The encoding of one instruction with fitting operands is well formed.
pub proof fn lemma_encode_wf(op: Opcode, args: Seq<u32>)
    requires
        operands_fit(op, args),
    ensures
        wf_from(encode(op, args), 0),
{
    let e = encode(op, args);
    lemma_encode_facts(op, args);
    lemma_byte_decodes(op);
    assert(op_at(e, 0) == op);
    if op == Opcode::JumpTable {
        assert(le_u32(e, 1 + 4 * 1int) == args[1]);
    }
    assert(instr_len(e, 0) == e.len());
    assert(instr_ok(e, 0));
    assert(wf_from(e, e.len() as int));
}

/// A well-formed walk of `b` stays one after `a` is put in front.
pub proof fn lemma_wf_shift(a: Seq<u8>, b: Seq<u8>, q: int)
    requires
        0 <= q,
        wf_from(b, q),
    ensures
        wf_from(a + b, a.len() + q),
    decreases b.len() - q,
{
    let c = a + b;
    let p = a.len() + q;
    if q < b.len() {
        assert(c[p] == b[q]);
        if op_at(b, q) == Opcode::JumpTable {
            assert(c[p + 5] == b[q + 5]);
            assert(c[p + 6] == b[q + 6]);
            assert(c[p + 7] == b[q + 7]);
            assert(c[p + 8] == b[q + 8]);
        }
        assert(instr_len(c, p) == instr_len(b, q));
        lemma_wf_shift(a, b, q + instr_len(b, q));
    }
}

/// Two well-formed buffers make a well-formed one.
pub proof fn lemma_wf_concat(a: Seq<u8>, b: Seq<u8>, p: int)
    requires
        0 <= p,
        wf_from(a, p),
        wf_from(b, 0),
    ensures
        wf_from(a + b, p),
    decreases a.len() - p,
{
    let c = a + b;
    if p < a.len() {
        assert(c[p] == a[p]);
        if op_at(a, p) == Opcode::JumpTable {
            assert(c[p + 5] == a[p + 5]);
            assert(c[p + 6] == a[p + 6]);
            assert(c[p + 7] == a[p + 7]);
            assert(c[p + 8] == a[p + 8]);
        }
        assert(instr_len(c, p) == instr_len(a, p));
        lemma_wf_concat(a, b, p + instr_len(a, p));
    } else {
        lemma_wf_shift(a, b, 0);
    }
}

/// Rewriting the first four operand bytes of an instruction with a fixed
/// layout of at least four operand bytes keeps every instruction boundary
/// from `p` on, and keeps the walk well formed.
pub proof fn lemma_operand_write(s: Seq<u8>, pc: int, v: u32, p: int)
    requires
        0 <= p,
        wf_from(s, p),
        pc + 5 <= p || starts_from(s, p).contains(pc),
        0 <= pc,
        pc + 5 <= s.len(),
        op_at(s, pc) != Opcode::JumpTable,
        op_at(s, pc).spec_fixed_operand_bytes() >= 4,
    ensures
        wf_from(seq_write(s, pc + 1, v), p),
        starts_from(seq_write(s, pc + 1, v), p) == starts_from(s, p),
    decreases s.len() - p,
{
    let t = seq_write(s, pc + 1, v);
    lemma_write_read(s, pc + 1, v);
    lemma_starts(s, p);
    if p < s.len() {
        let next = p + instr_len(s, p);
        if pc > p {
            let st = starts_from(s, p);
            assert(st == seq![p] + starts_from(s, next));
            let k = choose|k: int| 0 <= k < st.len() && st[k] == pc;
            assert(k > 0);
            assert(starts_from(s, next)[k - 1] == pc);
            lemma_starts(s, next);
            assert(starts_from(s, next).contains(pc));
            assert(pc >= next);
        }
        assert(t[p] == s[p]);
        if op_at(s, p) == Opcode::JumpTable {
            assert(pc != p);
            assert(t[p + 5] == s[p + 5]);
            assert(t[p + 6] == s[p + 6]);
            assert(t[p + 7] == s[p + 7]);
            assert(t[p + 8] == s[p + 8]);
        }
        assert(instr_len(t, p) == instr_len(s, p));
        assert(instr_ok(t, p));
        lemma_operand_write(s, pc, v, next);
        assert(starts_from(t, p) == seq![p] + starts_from(t, next));
    }
}

/// Builds bytecode by appending encoded instructions.
#[derive(Debug)]
pub struct BytecodeEmitter {
    pub bytes: Vec<u8>,
}

impl BytecodeEmitter {
    /// The emitted bytes decode, instruction by instruction, exactly to
    /// their end.
    pub open spec fn wf(&self) -> bool {
        wf_from(self.bytes@, 0)
    }

    pub fn new() -> (e: BytecodeEmitter)
        ensures
            e.bytes@ == Seq::<u8>::empty(),
            e.wf(),
    {
        BytecodeEmitter { bytes: Vec::new() }
    }

    /// The address at which the next instruction will be emitted.
    pub fn next_opcode_location(&self) -> (a: Address)
        requires
            self.bytes@.len() <= u32::MAX,
        ensures
            a.0 == self.bytes@.len(),
    {
        Address(self.bytes.len() as u32)
    }

    fn emit(&mut self, op: Opcode, args: &[u32])
        ensures
            final(self).bytes@ == old(self).bytes@ + encode(op, args@),
            operands_fit(op, args@) && old(self).wf() ==> final(self).wf(),
    {
        let ghost start = self.bytes@;
        self.bytes.push(op.to_byte());
        assert(self.bytes@ =~= start + encode(op, args@.subrange(0, 0)));
        let mut i: usize = 0;
        while i < args.len()
            invariant
                i <= args@.len(),
                self.bytes@ == start + encode(op, args@.subrange(0, i as int)),
            decreases args@.len() - i,
        {
            push_u32(&mut self.bytes, args[i]);
            proof {
                let next = args@.subrange(0, i + 1);
                assert(next.drop_last() =~= args@.subrange(0, i as int));
                assert(next.last() == args@[i as int]);
            }
            i = i + 1;
        }
        assert(args@.subrange(0, args@.len() as int) =~= args@);
        proof {
            if operands_fit(op, args@) && wf_from(start, 0) {
                lemma_encode_wf(op, args@);
                lemma_wf_concat(start, encode(op, args@), 0);
            }
        }
    }

    pub fn emit_move(&mut self, dst: RegisterOperand, src: RegisterOperand)
        ensures
            old(self).wf() ==> final(self).wf(),
            final(self).bytes@ == old(self).bytes@ + encode(Opcode::Move, seq![dst, src]),
    {
        let args = [dst, src];
        assert(args@ =~= seq![dst, src]);
        self.emit(Opcode::Move, &args);
    }

    pub fn emit_get_property_by_name(
        &mut self,
        dst: RegisterOperand,
        value: RegisterOperand,
        ic_index: IndexOperand,
    )
        ensures
            old(self).wf() ==> final(self).wf(),
            final(self).bytes@ == old(self).bytes@ + encode(
                Opcode::GetPropertyByName,
                seq![dst, value, ic_index],
            ),
    {
        let args = [dst, value, ic_index];
        assert(args@ =~= seq![dst, value, ic_index]);
        self.emit(Opcode::GetPropertyByName, &args);
    }

    pub fn emit_get_property_by_name_with_this(
        &mut self,
        dst: RegisterOperand,
        receiver: RegisterOperand,
        value: RegisterOperand,
        ic_index: IndexOperand,
    )
        ensures
            old(self).wf() ==> final(self).wf(),
            final(self).bytes@ == old(self).bytes@ + encode(
                Opcode::GetPropertyByNameWithThis,
                seq![dst, receiver, value, ic_index],
            ),
    {
        let args = [dst, receiver, value, ic_index];
        assert(args@ =~= seq![dst, receiver, value, ic_index]);
        self.emit(Opcode::GetPropertyByNameWithThis, &args);
    }

    pub fn emit_set_property_by_name(
        &mut self,
        value: RegisterOperand,
        object: RegisterOperand,
        ic_index: IndexOperand,
    )
        ensures
            old(self).wf() ==> final(self).wf(),
            final(self).bytes@ == old(self).bytes@ + encode(
                Opcode::SetPropertyByName,
                seq![value, object, ic_index],
            ),
    {
        let args = [value, object, ic_index];
        assert(args@ =~= seq![value, object, ic_index]);
        self.emit(Opcode::SetPropertyByName, &args);
    }

    pub fn emit_set_property_by_name_with_this(
        &mut self,
        value: RegisterOperand,
        receiver: RegisterOperand,
        object: RegisterOperand,
        ic_index: IndexOperand,
    )
        ensures
            old(self).wf() ==> final(self).wf(),
            final(self).bytes@ == old(self).bytes@ + encode(
                Opcode::SetPropertyByNameWithThis,
                seq![value, receiver, object, ic_index],
            ),
    {
        let args = [value, receiver, object, ic_index];
        assert(args@ =~= seq![value, receiver, object, ic_index]);
        self.emit(Opcode::SetPropertyByNameWithThis, &args);
    }

    pub fn emit_define_own_property_by_name(
        &mut self,
        object: RegisterOperand,
        value: RegisterOperand,
        name_index: IndexOperand,
    )
        ensures
            old(self).wf() ==> final(self).wf(),
            final(self).bytes@ == old(self).bytes@ + encode(
                Opcode::DefineOwnPropertyByName,
                seq![object, value, name_index],
            ),
    {
        let args = [object, value, name_index];
        assert(args@ =~= seq![object, value, name_index]);
        self.emit(Opcode::DefineOwnPropertyByName, &args);
    }

    pub fn emit_set_accumulator(&mut self, src: RegisterOperand)
        ensures
            old(self).wf() ==> final(self).wf(),
            final(self).bytes@ == old(self).bytes@ + encode(Opcode::SetAccumulator, seq![src]),
    {
        let args = [src];
        assert(args@ =~= seq![src]);
        self.emit(Opcode::SetAccumulator, &args);
    }

    pub fn emit_set_register_from_accumulator(&mut self, dst: RegisterOperand)
        ensures
            old(self).wf() ==> final(self).wf(),
            final(self).bytes@ == old(self).bytes@ + encode(
                Opcode::SetRegisterFromAccumulator,
                seq![dst],
            ),
    {
        let args = [dst];
        assert(args@ =~= seq![dst]);
        self.emit(Opcode::SetRegisterFromAccumulator, &args);
    }

    pub fn emit_pop_into_register(&mut self, dst: RegisterOperand)
        ensures
            old(self).wf() ==> final(self).wf(),
            final(self).bytes@ == old(self).bytes@ + encode(Opcode::PopIntoRegister, seq![dst]),
    {
        let args = [dst];
        assert(args@ =~= seq![dst]);
        self.emit(Opcode::PopIntoRegister, &args);
    }

    pub fn emit_push_from_register(&mut self, src: RegisterOperand)
        ensures
            old(self).wf() ==> final(self).wf(),
            final(self).bytes@ == old(self).bytes@ + encode(Opcode::PushFromRegister, seq![src]),
    {
        let args = [src];
        assert(args@ =~= seq![src]);
        self.emit(Opcode::PushFromRegister, &args);
    }

    pub fn emit_store_undefined(&mut self, dst: RegisterOperand)
        ensures
            old(self).wf() ==> final(self).wf(),
            final(self).bytes@ == old(self).bytes@ + encode(Opcode::StoreUndefined, seq![dst]),
    {
        let args = [dst];
        assert(args@ =~= seq![dst]);
        self.emit(Opcode::StoreUndefined, &args);
    }

    pub fn emit_jump(&mut self, address: Address)
        ensures
            old(self).wf() ==> final(self).wf(),
            final(self).bytes@ == old(self).bytes@ + encode(Opcode::Jump, seq![address.0]),
    {
        let args = [address.0];
        assert(args@ =~= seq![address.0]);
        self.emit(Opcode::Jump, &args);
    }

    /// Emit a three-register arithmetic instruction (`Add`, `AddInt`, ...).
    pub fn emit_binary(
        &mut self,
        op: Opcode,
        dst: RegisterOperand,
        lhs: RegisterOperand,
        rhs: RegisterOperand,
    )
        ensures
            operands_fit(op, seq![dst, lhs, rhs]) && old(self).wf() ==> final(self).wf(),
            final(self).bytes@ == old(self).bytes@ + encode(op, seq![dst, lhs, rhs]),
    {
        let args = [dst, lhs, rhs];
        assert(args@ =~= seq![dst, lhs, rhs]);
        self.emit(op, &args);
    }

    /// Emit `JumpTable { index, addresses }`.
    pub fn emit_jump_table(&mut self, index: u32, addresses: &[Address])
        requires
            addresses@.len() <= u32::MAX,
        ensures
            old(self).wf() ==> final(self).wf(),
            final(self).bytes@ == old(self).bytes@ + encode(
                Opcode::JumpTable,
                seq![index, addresses@.len() as u32] + addresses@.map_values(|a: Address| a.0),
            ),
    {
        let mut args: Vec<u32> = Vec::new();
        args.push(index);
        args.push(addresses.len() as u32);
        let mut i: usize = 0;
        while i < addresses.len()
            invariant
                i <= addresses@.len(),
                addresses@.len() <= u32::MAX,
                args@ == seq![index, addresses@.len() as u32] + addresses@.subrange(
                    0,
                    i as int,
                ).map_values(|a: Address| a.0),
            decreases addresses@.len() - i,
        {
            args.push(addresses[i].0);
            proof {
                assert(addresses@.subrange(0, i + 1).map_values(|a: Address| a.0)
                    =~= addresses@.subrange(0, i as int).map_values(|a: Address| a.0).push(
                    addresses@[i as int].0,
                ));
            }
            i = i + 1;
        }
        assert(addresses@.subrange(0, addresses@.len() as int) =~= addresses@);
        self.emit(Opcode::JumpTable, args.as_slice());
    }

    /// Overwrite the address operand of the jump emitted at `jump_pc`.
    pub fn patch_jump(&mut self, jump_pc: Address, target: Address)
        requires
            jump_pc.0 + 5 <= old(self).bytes@.len(),
        ensures
            final(self).bytes@ == old(self).bytes@.subrange(0, jump_pc.0 + 1) + le_bytes(target.0)
                + old(self).bytes@.subrange(jump_pc.0 + 5, old(self).bytes@.len() as int),
            old(self).wf() && starts_from(old(self).bytes@, 0).contains(jump_pc.0 as int) && op_at(
                old(self).bytes@,
                jump_pc.0 as int,
            ) != Opcode::JumpTable && op_at(old(self).bytes@, jump_pc.0 as int).spec_fixed_operand_bytes()
                >= 4 ==> final(self).wf() && starts_from(final(self).bytes@, 0) == starts_from(
                old(self).bytes@,
                0,
            ),
    {
        let _n = self.bytes.len();
        let ghost before = self.bytes@;
        write_u32(&mut self.bytes, jump_pc.0 as usize + 1, target.0);
        proof {
            if wf_from(before, 0) && starts_from(before, 0).contains(jump_pc.0 as int) && op_at(
                before,
                jump_pc.0 as int,
            ) != Opcode::JumpTable && op_at(before, jump_pc.0 as int).spec_fixed_operand_bytes()
                >= 4 {
                lemma_operand_write(before, jump_pc.0 as int, target.0, 0);
            }
        }
    }

    pub fn into_bytecode(self) -> (b: Bytecode)
        ensures
            b.bytes@ == self.bytes@,
    {
        Bytecode { bytes: self.bytes }
    }
}

} // verus!
