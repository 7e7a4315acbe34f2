//! Peephole analysis over emitted bytecode.
//!
//! The bytecompiler emits the obvious `Move snapshot, src; Op …, snapshot, …`
//! pattern, and this pass elides the `Move` when it can prove the elision is
//! safe:
//!
//! 1. `snapshot` is not read after `Op` (before it is next written), so no
//!    later reader can observe the difference;
//! 2. `src` is not written between the `Move` and the `Op`, which holds by
//!    construction since the two are adjacent;
//! 3. neither instruction is the target of a jump or an exception handler,
//!    since the scan is linear and an edge that bypasses the `Move` would be
//!    invisible to it.
//!
//! The analysis refuses to decide about opcodes it has no operand metadata
//! for ([`operand_info`]), failing closed.
use vstd::prelude::*;

use crate::bytecode::{
    instr_len, instr_ok, le_u32, op_at, starts_from, wf_from, Bytecode, Handler, Opcode,
    RegisterOperand,
};

pub mod control_flow;
pub mod effects;
pub mod operand_info;
pub mod rewrite;
pub mod semantics;

use self::operand_info::{
    lemma_operand_info_layout, operand_info, spec_operand_info, OperandRole,
};
use self::rewrite::{jump_targets, sorted_contains, strictly_sorted, target_seq};

verus! {

/// A safe Move-elision opportunity: an adjacent `Move dst, src` + `Op …`
/// where `dst` appears at exactly one register-operand position of `Op`, as
/// a read, and the elision conditions hold. A rewriter deletes the `Move`
/// and rewrites the operand of `Op` at `op_operand_idx` from `dst` to `src`.
#[derive(Clone, Copy, Debug, PartialEq, Eq, Structural)]
pub struct Elision {
    /// PC of the `Move` instruction.
    pub move_pc: u32,
    /// PC of the `Op` immediately following the `Move`.
    pub op_pc: u32,
    /// Source register of the `Move`.
    pub src: RegisterOperand,
    /// Destination register of the `Move`.
    pub dst: RegisterOperand,
    /// Index, within `Op`'s register operands, of the slot holding `dst`.
    pub op_operand_idx: usize,
}

/// Decoded form of an instruction for analysis purposes: `Move`, or any
/// other opcode with its register operands (empty when the opcode has no
/// metadata).
#[derive(Clone, Debug)]
pub enum DecodedInstruction {
    Move { dst: RegisterOperand, src: RegisterOperand },
    Other { opcode: Opcode, operands: Vec<RegisterOperand> },
}

/// Register operands read from the bytes after the opcode at `pc`, as far
/// as the opcode's metadata lists them.
pub open spec fn operands_at(s: Seq<u8>, pc: int) -> Seq<u32> {
    match spec_operand_info(op_at(s, pc)) {
        Some(info) => Seq::new(info.len(), |i: int| le_u32(s, pc + 1 + 4 * i)),
        None => Seq::empty(),
    }
}

/// The registers of the instruction at `pc`: `[dst, src]` for `Move`,
/// the listed register operands otherwise.
pub open spec fn instruction_registers(s: Seq<u8>, pc: int) -> Seq<u32> {
    if op_at(s, pc) == Opcode::Move {
        seq![le_u32(s, pc + 1), le_u32(s, pc + 5)]
    } else {
        operands_at(s, pc)
    }
}

/// One line of a listing: the instruction's pc, opcode and registers.
pub open spec fn listing_line(s: Seq<u8>, pc: int) -> (u32, Opcode, Seq<u32>) {
    (pc as u32, op_at(s, pc), instruction_registers(s, pc))
}

/// The listing of a bytecode buffer, one line per instruction.
pub open spec fn listing(s: Seq<u8>) -> Seq<(u32, Opcode, Seq<u32>)> {
    starts_from(s, 0).map_values(|pc: int| listing_line(s, pc))
}

/// The opcode and registers of a decoded instruction.
pub open spec fn inst_view(d: DecodedInstruction) -> (Opcode, Seq<u32>) {
    match d {
        DecodedInstruction::Move { dst, src } => (Opcode::Move, seq![dst, src]),
        DecodedInstruction::Other { opcode, operands } => (opcode, operands@),
    }
}

/// The listing that a vector of decoded instructions stands for.
pub open spec fn decoded_listing(v: Seq<(u32, DecodedInstruction)>) -> Seq<
    (u32, Opcode, Seq<u32>),
> {
    v.map_values(|e: (u32, DecodedInstruction)| (e.0, inst_view(e.1).0, inst_view(e.1).1))
}

/// No `Other` instruction carries the `Move` opcode.
pub open spec fn well_decoded(v: Seq<(u32, DecodedInstruction)>) -> bool {
    forall|i: int|
        0 <= i < v.len() ==> (#[trigger] v[i]).1 is Other ==> v[i].1->opcode != Opcode::Move
}

/// Whether the value held in `dst` before line `k` can never be read again:
/// scanning forward, a read of `dst` (or an opcode without metadata) comes
/// never before a write that overwrites it.
pub open spec fn dead_after(l: Seq<(u32, Opcode, Seq<u32>)>, k: int, dst: u32) -> bool
    decreases l.len() - k,
{
    if k < 0 || k >= l.len() {
        true
    } else {
        let op = l[k].1;
        let regs = l[k].2;
        if op == Opcode::Move {
            if regs[1] == dst {
                false
            } else if regs[0] == dst {
                true
            } else {
                dead_after(l, k + 1, dst)
            }
        } else {
            match spec_operand_info(op) {
                None => false,
                Some(info) => {
                    if info.len() != regs.len() {
                        false
                    } else if exists|j: int|
                        0 <= j < regs.len() && regs[j] == dst && info[j] == OperandRole::Read {
                        false
                    } else if exists|j: int|
                        0 <= j < regs.len() && regs[j] == dst && info[j] == OperandRole::Write {
                        true
                    } else {
                        dead_after(l, k + 1, dst)
                    }
                },
            }
        }
    }
}

/// `x` occurs in `ops` at `idx` and nowhere else.
pub open spec fn occurs_once_at(ops: Seq<u32>, x: u32, idx: int) -> bool {
    &&& 0 <= idx < ops.len()
    &&& ops[idx] == x
    &&& forall|j: int| 0 <= j < ops.len() && j != idx ==> ops[j] != x
}

/// The elision offered by the window of lines `i`, `i + 1`, if any.
pub open spec fn candidate(l: Seq<(u32, Opcode, Seq<u32>)>, i: int, targets: Seq<u32>) -> Option<
    Elision,
> {
    if 0 <= i && i + 1 < l.len() && l[i].1 == Opcode::Move && !targets.contains(l[i].0)
        && !targets.contains(l[i + 1].0) && l[i + 1].1 != Opcode::Move && spec_operand_info(
        l[i + 1].1,
    ) is Some {
        let dst = l[i].2[0];
        let src = l[i].2[1];
        let info = spec_operand_info(l[i + 1].1).unwrap();
        let ops = l[i + 1].2;
        if info.len() == ops.len() && (exists|idx: int| occurs_once_at(ops, dst, idx)) {
            let idx = choose|idx: int| occurs_once_at(ops, dst, idx);
            if info[idx] == OperandRole::Read && dead_after(l, i + 2, dst) {
                Some(
                    Elision {
                        move_pc: l[i].0,
                        op_pc: l[i + 1].0,
                        src,
                        dst,
                        op_operand_idx: idx as usize,
                    },
                )
            } else {
                None
            }
        } else {
            None
        }
    } else {
        None
    }
}

/// The elisions offered by the windows starting before line `n`, in order.
pub open spec fn elisions_upto(l: Seq<(u32, Opcode, Seq<u32>)>, n: int, targets: Seq<u32>) -> Seq<
    Elision,
>
    decreases n,
{
    if n <= 0 {
        Seq::empty()
    } else {
        elisions_upto(l, n - 1, targets) + match candidate(l, n - 1, targets) {
            Some(e) => seq![e],
            None => Seq::empty(),
        }
    }
}

/// Every safe elision of a bytecode buffer with the given handlers.
pub open spec fn safe_move_elisions(s: Seq<u8>, handlers: Seq<Handler>) -> Seq<Elision> {
    elisions_upto(listing(s), listing(s).len() as int, target_seq(s, handlers))
}

/// Scan the bytecode for safe Move-elision opportunities: every adjacent
/// `Move; Op` pair where `Op` has operand metadata, the `Move`'s
/// destination appears in `Op` at exactly one register position and as a
/// read, that destination is dead after `Op`, and neither instruction is a
/// jump or handler target. Read-only.
pub fn find_safe_move_elisions(bytecode: &Bytecode, handlers: &[Handler]) -> (out: Vec<Elision>)
    requires
        bytecode.wf(),
    ensures
        out@ == safe_move_elisions(bytecode.bytes@, handlers@),
{
    let decoded = decode_all(bytecode);
    let targets = jump_targets(bytecode, handlers);
    let ghost l = decoded_listing(decoded@);
    let ghost t = target_seq(bytecode.bytes@, handlers@);
    let mut out: Vec<Elision> = Vec::new();
    let mut i: usize = 0;
    while i < decoded.len()
        invariant
            l == decoded_listing(decoded@),
            l == listing(bytecode.bytes@),
            well_decoded(decoded@),
            strictly_sorted(targets@),
            forall|x: u32| targets@.contains(x) <==> t.contains(x),
            t == target_seq(bytecode.bytes@, handlers@),
            i <= decoded@.len(),
            out@ == elisions_upto(l, i as int, t),
        decreases decoded@.len() - i,
    {
        let found = check_window(&decoded, i, &targets);
        proof {
            assert(found == candidate(l, i as int, t)) by {
                assert forall|x: u32| targets@.contains(x) == t.contains(x) by {}
                lemma_candidate_targets(l, i as int, targets@, t);
            }
        }
        match found {
            Some(e) => {
                out.push(e);
            },
            None => {},
        }
        i = i + 1;
        proof {
            assert(out@ =~= elisions_upto(l, i as int, t));
        }
    }
    proof {
        assert(l.len() == decoded@.len());
    }
    out
}

/// `candidate` only depends on which pcs are targets.
pub proof fn lemma_candidate_targets(
    l: Seq<(u32, Opcode, Seq<u32>)>,
    i: int,
    a: Seq<u32>,
    b: Seq<u32>,
)
    requires
        forall|x: u32| a.contains(x) == b.contains(x),
    ensures
        candidate(l, i, a) == candidate(l, i, b),
{
    if 0 <= i && i + 1 < l.len() {
        assert(a.contains(l[i].0) == b.contains(l[i].0));
        assert(a.contains(l[i + 1].0) == b.contains(l[i + 1].0));
    }
}

/// The elision offered by the window at `i`, computed on decoded
/// instructions against the sorted target set.
fn check_window(decoded: &Vec<(u32, DecodedInstruction)>, i: usize, targets: &Vec<u32>) -> (r:
    Option<Elision>)
    requires
        i < decoded@.len(),
        well_decoded(decoded@),
        strictly_sorted(targets@),
    ensures
        r == candidate(decoded_listing(decoded@), i as int, targets@),
{
    let ghost l = decoded_listing(decoded@);
    let n = decoded.len();
    if i + 1 >= n {
        return None;
    }
    let move_pc = decoded[i].0;
    let (dst, src) = match &decoded[i].1 {
        DecodedInstruction::Move { dst, src } => (*dst, *src),
        _ => {
            return None;
        },
    };
    if sorted_contains(targets, move_pc) {
        return None;
    }
    let op_pc = decoded[i + 1].0;
    if sorted_contains(targets, op_pc) {
        return None;
    }
    let (opcode, operands) = match &decoded[i + 1].1 {
        DecodedInstruction::Other { opcode, operands } => (*opcode, operands),
        _ => {
            return None;
        },
    };
    assert(opcode != Opcode::Move);
    let info = match operand_info(opcode) {
        Some(info) => info,
        None => {
            return None;
        },
    };
    if info.len() != operands.len() {
        return None;
    }
    let ghost ops = operands@;
    assert(l[i + 1].2 == ops);
    assert(l[i as int].2 == seq![dst, src]);
    // First occurrence of `dst`.
    let mut k: usize = 0;
    while k < operands.len() && operands[k] != dst
        invariant
            k <= operands@.len(),
            forall|j: int| 0 <= j < k ==> operands@[j] != dst,
        decreases operands@.len() - k,
    {
        k = k + 1;
    }
    if k == operands.len() {
        assert(!exists|idx: int| occurs_once_at(ops, dst, idx));
        return None;
    }
    let idx = k;
    // No second occurrence.
    let mut m: usize = idx + 1;
    while m < operands.len()
        invariant
            idx < m <= operands@.len(),
            ops == operands@,
            ops[idx as int] == dst,
            forall|j: int| 0 <= j < idx ==> ops[j] != dst,
            l == decoded_listing(decoded@),
            i + 1 < decoded@.len(),
            l[i + 1].2 == ops,
            l[i as int].2 == seq![dst, src],
            forall|j: int| idx < j < m ==> operands@[j] != dst,
        decreases operands@.len() - m,
    {
        if operands[m] == dst {
            proof {
                assert forall|x: int| !#[trigger] occurs_once_at(l[i + 1].2, dst, x) by {
                    if occurs_once_at(l[i + 1].2, dst, x) {
                        if x != idx as int {
                            assert(ops[idx as int] == dst);
                        } else {
                            assert(ops[m as int] == dst);
                        }
                    }
                }
            }
            return None;
        }
        m = m + 1;
    }
    assert(occurs_once_at(ops, dst, idx as int));
    proof {
        let c = choose|x: int| occurs_once_at(ops, dst, x);
        assert(occurs_once_at(ops, dst, c));
        if c != idx as int {
            assert(ops[idx as int] == dst);
        }
        assert(c == idx as int);
    }
    if info[idx] != OperandRole::Read {
        return None;
    }
    if !dst_dead_after(decoded, i + 1, dst) {
        return None;
    }
    Some(Elision { move_pc, op_pc, src, dst, op_operand_idx: idx })
}

/// Decode every instruction into its pc and [`DecodedInstruction`].
pub fn decode_all(bytecode: &Bytecode) -> (out: Vec<(u32, DecodedInstruction)>)
    requires
        bytecode.wf(),
    ensures
        decoded_listing(out@) == listing(bytecode.bytes@),
        well_decoded(out@),
{
    let ghost s = bytecode.bytes@;
    let n = bytecode.bytes.len();
    let mut out: Vec<(u32, DecodedInstruction)> = Vec::new();
    let mut pc: usize = 0;
    assert(decoded_listing(out@) + starts_from(s, 0).map_values(|p: int| listing_line(s, p))
        =~= listing(s));
    while pc < n
        invariant
            n == s.len(),
            s == bytecode.bytes@,
            s.len() <= u32::MAX,
            pc <= n,
            wf_from(s, pc as int),
            decoded_listing(out@) + starts_from(s, pc as int).map_values(
                |p: int| listing_line(s, p),
            ) == listing(s),
            well_decoded(out@),
        decreases n - pc,
    {
        let opcode = Opcode::decode(bytecode.bytes[pc]);
        let next = bytecode.next_instruction(pc);
        let decoded = match opcode {
            Opcode::Move => {
                let dst = crate::bytecode::read_u32(&bytecode.bytes, pc + 1);
                let src = crate::bytecode::read_u32(&bytecode.bytes, pc + 5);
                DecodedInstruction::Move { dst, src }
            },
            other => {
                let operands = match operand_info(other) {
                    Some(info) => {
                        proof {
                            lemma_operand_info_layout(other);
                        }
                        extract_operands(bytecode, pc, info.len())
                    },
                    None => Vec::new(),
                };
                proof {
                    assert(operands@ =~= operands_at(s, pc as int));
                }
                DecodedInstruction::Other { opcode: other, operands }
            },
        };
        let ghost before = out@;
        out.push((pc as u32, decoded));
        proof {
            let f = |p: int| listing_line(s, p);
            assert(starts_from(s, pc as int) == seq![pc as int] + starts_from(s, next as int));
            assert(starts_from(s, pc as int).map_values(f) =~= seq![f(pc as int)] + starts_from(
                s,
                next as int,
            ).map_values(f));
            assert(inst_view(decoded).1 =~= instruction_registers(s, pc as int));
            assert(decoded_listing(out@) =~= decoded_listing(before) + seq![f(pc as int)]);
            assert(decoded_listing(out@) + starts_from(s, next as int).map_values(f)
                =~= decoded_listing(before) + starts_from(s, pc as int).map_values(f));
            assert forall|i: int| 0 <= i < out@.len() && (#[trigger] out@[i]).1 is Other implies out@[i].1->opcode
                != Opcode::Move by {
                if i < before.len() {
                    assert(out@[i] == before[i]);
                }
            }
        }
        pc = next;
    }
    proof {
        assert(starts_from(s, n as int) == Seq::<int>::empty());
        assert(decoded_listing(out@) =~= decoded_listing(out@) + starts_from(
            s,
            n as int,
        ).map_values(|p: int| listing_line(s, p)));
    }
    out
}

/// Read `count` consecutive register operands starting one byte after the
/// opcode at `opcode_pc`.
fn extract_operands(bytecode: &Bytecode, opcode_pc: usize, count: usize) -> (out: Vec<
    RegisterOperand,
>)
    requires
        opcode_pc + 1 + 4 * count <= bytecode.bytes@.len(),
    ensures
        out@ == Seq::new(count as nat, |i: int| le_u32(bytecode.bytes@, opcode_pc + 1 + 4 * i)),
{
    let _n = bytecode.bytes.len();
    let mut out: Vec<RegisterOperand> = Vec::new();
    let mut pos = opcode_pc + 1;
    let mut i: usize = 0;
    while i < count
        invariant
            i <= count,
            pos == opcode_pc + 1 + 4 * i,
            opcode_pc + 1 + 4 * count <= bytecode.bytes@.len(),
            out@ == Seq::new(i as nat, |j: int| le_u32(bytecode.bytes@, opcode_pc + 1 + 4 * j)),
            _n == bytecode.bytes@.len(),
        decreases count - i,
    {
        let raw = crate::bytecode::read_u32(&bytecode.bytes, pos);
        out.push(raw);
        proof {
            assert(out@ =~= Seq::new(
                (i + 1) as nat,
                |j: int| le_u32(bytecode.bytes@, opcode_pc + 1 + 4 * j),
            ));
        }
        pos = pos + 4;
        i = i + 1;
    }
    out
}

/// True if the value written into `dst` before the instruction after
/// `op_index` can never be read: scanning forward, every instruction either
/// does not mention `dst`, or overwrites it before any read. Fails closed on
/// an opcode without metadata.
pub fn dst_dead_after(
    decoded: &Vec<(u32, DecodedInstruction)>,
    op_index: usize,
    dst: RegisterOperand,
) -> (r: bool)
    requires
        op_index < decoded@.len(),
        well_decoded(decoded@),
    ensures
        r == dead_after(decoded_listing(decoded@), op_index + 1, dst),
{
    let ghost l = decoded_listing(decoded@);
    let n = decoded.len();
    let mut k: usize = op_index + 1;
    while k < decoded.len()
        invariant
            op_index < k <= decoded@.len(),
            l == decoded_listing(decoded@),
            well_decoded(decoded@),
            dead_after(l, op_index + 1, dst) == dead_after(l, k as int, dst),
        decreases decoded@.len() - k,
    {
        match &decoded[k].1 {
            DecodedInstruction::Move { dst: m_dst, src: m_src } => {
                if *m_src == dst {
                    return false;
                }
                if *m_dst == dst {
                    return true;
                }
            },
            DecodedInstruction::Other { opcode, operands } => {
                assert(*opcode != Opcode::Move);
                let info = match operand_info(*opcode) {
                    Some(info) => info,
                    None => {
                        return false;
                    },
                };
                if info.len() != operands.len() {
                    return false;
                }
                let ghost regs = operands@;
                let mut saw_write_only = false;
                let mut j: usize = 0;
                while j < operands.len()
                    invariant
                        j <= operands@.len(),
                        info@.len() == operands@.len(),
                        k < l.len(),
                        l == decoded_listing(decoded@),
                        l[k as int].1 == *opcode,
                        l[k as int].2 == regs,
                        *opcode != Opcode::Move,
                        spec_operand_info(*opcode) == Some(info@),
                        dead_after(l, op_index + 1, dst) == dead_after(l, k as int, dst),
                        regs == operands@,
                        forall|q: int|
                            0 <= q < j ==> !(regs[q] == dst && info@[q] == OperandRole::Read),
                        saw_write_only == exists|q: int|
                            0 <= q < j && regs[q] == dst && info@[q] == OperandRole::Write,
                    decreases operands@.len() - j,
                {
                    if operands[j] == dst {
                        match info[j] {
                            OperandRole::Read => {
                                assert(regs[j as int] == dst && info@[j as int]
                                    == OperandRole::Read);
                                return false;
                            },
                            OperandRole::Write => {
                                saw_write_only = true;
                            },
                        }
                    }
                    proof {
                        if saw_write_only {
                            if !(exists|q: int|
                                0 <= q < j && regs[q] == dst && info@[q] == OperandRole::Write) {
                                assert(regs[j as int] == dst && info@[j as int]
                                    == OperandRole::Write);
                            }
                        } else {
                            assert(!(regs[j as int] == dst && info@[j as int]
                                == OperandRole::Write));
                        }
                    }
                    j = j + 1;
                }
                if saw_write_only {
                    return true;
                }
            },
        }
        k = k + 1;
    }
    true
}

} // verus!
