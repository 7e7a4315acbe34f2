//! Where each instruction can send control besides the next instruction:
//! the destinations of jumps, conditional branches, `switch` cases,
//! template-cache hits, short-circuiting operators and jump tables. This is
//! what the rewriter's address classification is held to.
use vstd::prelude::*;

use super::rewrite::{handler_points, slots_at, slots_from, target_seq};
use super::semantics::lemma_safe_move_elisions_are_the_windows;
use super::{candidate, listing, safe_move_elisions};
use crate::bytecode::{instr_len, instr_ok, le_u32, lemma_starts, op_at, starts_from, wf_from, Handler, Opcode};

verus! {

/// The destinations, other than the next instruction, of the instruction
/// at `pc`. Every branching opcode but `JumpTable` encodes its destination
/// as its first operand: `Jump` always goes there; `JumpIfTrue`,
/// `JumpIfFalse`, `JumpIfNotUndefined`, `JumpIfNullOrUndefined` and the
/// `JumpIfNot…` comparisons go there when their condition holds; `Case`
/// when the value matches; `TemplateLookup` when the template is cached;
/// `LogicalAnd`, `LogicalOr` and `Coalesce` when they short-circuit.
/// `JumpTable` goes to one of the `len` addresses that follow its `index`
/// and `len` operands.
pub open spec fn jump_destinations(s: Seq<u8>, pc: int) -> Seq<u32> {
    let first = le_u32(s, pc + 1);
    match op_at(s, pc) {
        Opcode::Jump => seq![first],
        Opcode::JumpIfTrue => seq![first],
        Opcode::JumpIfFalse => seq![first],
        Opcode::JumpIfNotUndefined => seq![first],
        Opcode::JumpIfNullOrUndefined => seq![first],
        Opcode::JumpIfNotLessThan => seq![first],
        Opcode::JumpIfNotLessThanOrEqual => seq![first],
        Opcode::JumpIfNotGreaterThan => seq![first],
        Opcode::JumpIfNotGreaterThanOrEqual => seq![first],
        Opcode::JumpIfNotEqual => seq![first],
        Opcode::Case => seq![first],
        Opcode::TemplateLookup => seq![first],
        Opcode::LogicalAnd => seq![first],
        Opcode::LogicalOr => seq![first],
        Opcode::Coalesce => seq![first],
        Opcode::JumpTable => Seq::new(le_u32(s, pc + 5) as nat, |i: int| le_u32(s, pc + 9 + 4 * i)),
        _ => Seq::empty(),
    }
}

/// The address operands the rewriter remaps are exactly the destinations
/// of the instruction: each branching opcode's destination operand, each
/// entry of a jump table, and nothing of any other opcode.
pub proof fn lemma_address_slots_are_the_destinations(s: Seq<u8>, pc: int)
    ensures
        slots_at(s, pc).map_values(|k: int| le_u32(s, k)) == jump_destinations(s, pc),
{
    assert(slots_at(s, pc).map_values(|k: int| le_u32(s, k)) =~= jump_destinations(s, pc));
}

/// Every address slot of every instruction met walking from `pc` is among
/// the slots collected from `pc`.
proof fn lemma_slots_cover(s: Seq<u8>, pc: int, i: int, q: int)
    requires
        0 <= pc,
        0 <= i < starts_from(s, pc).len(),
        0 <= q < slots_at(s, starts_from(s, pc)[i]).len(),
    ensures
        slots_from(s, pc).contains(slots_at(s, starts_from(s, pc)[i])[q]),
    decreases s.len() - pc,
{
    let next = pc + instr_len(s, pc);
    assert(0 <= pc < s.len() && instr_ok(s, pc));
    assert(starts_from(s, pc) == seq![pc] + starts_from(s, next));
    assert(slots_from(s, pc) == slots_at(s, pc) + slots_from(s, next));
    if i == 0 {
        assert(slots_from(s, pc)[q] == slots_at(s, pc)[q]);
    } else {
        lemma_starts(s, pc);
        assert(starts_from(s, pc)[i] == starts_from(s, next)[i - 1]);
        if instr_len(s, pc) <= 0 {
            assert(false);
        }
        lemma_slots_cover(s, next, i - 1, q);
        let w = choose|w: int|
            0 <= w < slots_from(s, next).len() && slots_from(s, next)[w] == slots_at(
                s,
                starts_from(s, next)[i - 1],
            )[q];
        assert(slots_from(s, pc)[slots_at(s, pc).len() + w] == slots_from(s, next)[w]);
    }
}

/// Both ends of every handler are among its handlers' points.
proof fn lemma_handler_points_cover(h: Seq<Handler>, i: int)
    requires
        0 <= i < h.len(),
    ensures
        handler_points(h).contains(h[i].start.0),
        handler_points(h).contains(h[i].end.0),
    decreases h.len(),
{
    let p = handler_points(h);
    let d = handler_points(h.drop_last());
    if i == h.len() - 1 {
        assert(p[d.len() as int] == h[i].start.0);
        assert(p[d.len() as int + 1] == h[i].end.0);
    } else {
        lemma_handler_points_cover(h.drop_last(), i);
        assert(h.drop_last()[i] == h[i]);
        let a = choose|a: int| 0 <= a < d.len() && d[a] == h[i].start.0;
        let b = choose|b: int| 0 <= b < d.len() && d[b] == h[i].end.0;
        assert(p[a] == d[a]);
        assert(p[b] == d[b]);
    }
}

/// Neither instruction of an elided pair is a place control can enter
/// other than by falling through from the one before: no instruction of
/// the buffer has either of them among its jump destinations, and no
/// exception handler starts or ends at either.
pub proof fn lemma_elided_pairs_are_not_entry_points(s: Seq<u8>, h: Seq<Handler>)
    requires
        wf_from(s, 0),
        s.len() <= u32::MAX,
    ensures
        forall|j: int, k: int|
            0 <= j < safe_move_elisions(s, h).len() && 0 <= k < starts_from(s, 0).len() ==> {
                &&& !jump_destinations(s, #[trigger] starts_from(s, 0)[k]).contains(
                    (#[trigger] safe_move_elisions(s, h)[j]).move_pc,
                )
                &&& !jump_destinations(s, starts_from(s, 0)[k]).contains(
                    safe_move_elisions(s, h)[j].op_pc,
                )
            },
        forall|j: int, i: int|
            0 <= j < safe_move_elisions(s, h).len() && 0 <= i < h.len() ==> {
                let e = #[trigger] safe_move_elisions(s, h)[j];
                &&& (#[trigger] h[i]).start.0 != e.move_pc && h[i].start.0 != e.op_pc
                &&& h[i].end.0 != e.move_pc && h[i].end.0 != e.op_pc
            },
{
    let el = safe_move_elisions(s, h);
    let l = listing(s);
    let t = target_seq(s, h);
    let st = starts_from(s, 0);
    let vals = slots_from(s, 0).map_values(|slot: int| le_u32(s, slot));
    lemma_safe_move_elisions_are_the_windows(s, h);
    lemma_starts(s, 0);
    assert forall|j: int| 0 <= j < el.len() implies !t.contains((#[trigger] el[j]).move_pc)
        && !t.contains(el[j].op_pc) by {
        let i = choose|i: int| 0 <= i < l.len() && #[trigger] candidate(l, i, t) == Some(el[j]);
        assert(candidate(l, i, t) == Some(el[j]));
    }
    assert forall|j: int, k: int|
        0 <= j < el.len() && 0 <= k < st.len() implies {
            &&& !jump_destinations(s, #[trigger] st[k]).contains((#[trigger] el[j]).move_pc)
            &&& !jump_destinations(s, st[k]).contains(el[j].op_pc)
        } by {
        lemma_address_slots_are_the_destinations(s, st[k]);
        let d = jump_destinations(s, st[k]);
        assert forall|q: int| 0 <= q < d.len() implies t.contains(#[trigger] d[q]) by {
            assert(d[q] == le_u32(s, slots_at(s, st[k])[q]));
            lemma_slots_cover(s, 0, k, q);
            let w = choose|w: int|
                0 <= w < slots_from(s, 0).len() && slots_from(s, 0)[w] == slots_at(s, st[k])[q];
            assert(vals[w] == d[q]);
            assert(t[w] == vals[w]);
        }
        assert(!t.contains(el[j].move_pc) && !t.contains(el[j].op_pc));
    }
    assert forall|j: int, i: int| 0 <= j < el.len() && 0 <= i < h.len() implies {
        let e = #[trigger] el[j];
        &&& (#[trigger] h[i]).start.0 != e.move_pc && h[i].start.0 != e.op_pc
        &&& h[i].end.0 != e.move_pc && h[i].end.0 != e.op_pc
    } by {
        lemma_handler_points_cover(h, i);
        let p = handler_points(h);
        let a = choose|a: int| 0 <= a < p.len() && p[a] == h[i].start.0;
        let b = choose|b: int| 0 <= b < p.len() && p[b] == h[i].end.0;
        assert(t[vals.len() + a] == p[a]);
        assert(t[vals.len() + b] == p[b]);
        assert(!t.contains(el[j].move_pc) && !t.contains(el[j].op_pc));
    }
}

} // verus!
