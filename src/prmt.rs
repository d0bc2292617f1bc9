//! Folding of chained byte-permute instructions.
//!
//! A byte-permute builds a 32-bit result from two 32-bit sources: each of the
//! four 4-bit fields of its selector names one of the eight source bytes
//! (0..3 from the first source, 4..7 from the second) and may ask for the
//! byte's sign to be replicated over it (the extend flag, bit 3 of the field).
//! When a permute reads the result of an earlier permute whose selector is a
//! literal, the two selections compose into one, and the later permute can
//! read the earlier one's sources directly.
use vstd::prelude::*;

verus! {

/// A single-component value that exactly one instruction defines.
pub type SSAValue = u32;

/// An operand: an immediate or a reference to an SSA value.
#[derive(Clone, Copy, Debug, PartialEq, Eq, Structural)]
pub enum Src {
    Imm32(u32),
    SSA(SSAValue),
}

/// What a permute instruction does with its selector. Only `Index` reads
/// the selector as four byte indices.
#[derive(Clone, Copy, Debug, PartialEq, Eq, Structural)]
pub enum PrmtMode {
    Index,
    Forward4Extract,
    Backward4Extract,
    Replicate8,
    EdgeClampLeft,
    EdgeClampRight,
    Replicate16,
}

/// Where an instruction writes its result.
#[derive(Clone, Copy, Debug, PartialEq, Eq, Structural)]
pub enum Dst {
    Void,
    SSA(SSAValue),
}

/// A byte-permute instruction.
#[derive(Clone, Copy, Debug, PartialEq, Eq)]
pub struct OpPrmt {
    pub dst: Dst,
    pub srcs: [Src; 2],
    pub sel: Src,
    pub mode: PrmtMode,
}

/// A recorded permute: its sources and its literal selector.
#[derive(Clone, Copy, Debug, PartialEq, Eq)]
pub struct PrmtEntry {
    pub srcs: [Src; 2],
    pub selector_value: u32,
}

/// An operation: a byte-permute, or any other instruction, which this pass
/// leaves as it is.
#[derive(Clone, Copy, Debug, PartialEq, Eq)]
pub enum Op {
    Prmt(OpPrmt),
    Other(u32),
}

#[derive(Clone, Copy, Debug, PartialEq, Eq)]
pub struct Instr {
    pub op: Op,
}

/// Instructions in program order.
#[derive(Clone, Debug)]
pub struct BasicBlock {
    pub instrs: Vec<Instr>,
}

/// Blocks in layout order.
#[derive(Clone, Debug)]
pub struct Function {
    pub blocks: Vec<BasicBlock>,
}

#[derive(Clone, Debug)]
pub struct Shader {
    pub functions: Vec<Function>,
}

/// Field `i` (0..3) of a selector.
pub open spec fn nibble(sel: u32, i: int) -> u32 {
    if i == 0 {
        sel & 0xf
    } else if i == 1 {
        (sel >> 4u32) & 0xf
    } else if i == 2 {
        (sel >> 8u32) & 0xf
    } else {
        (sel >> 12u32) & 0xf
    }
}

/// The source byte (0..7) that field `i` selects.
pub open spec fn field_byte(sel: u32, i: int) -> u32 {
    nibble(sel, i) & 7
}

/// The extend flag of field `i`: 8 when set, 0 when not.
pub open spec fn field_extend(sel: u32, i: int) -> u32 {
    nibble(sel, i) & 8
}

/// Whether field `i` selects a byte of source `slot`.
pub open spec fn field_uses(sel: u32, i: int, slot: int) -> bool {
    if slot == 0 {
        field_byte(sel, i) < 4
    } else if slot == 1 {
        field_byte(sel, i) > 3
    } else {
        false
    }
}

/// Whether any output byte reads source `slot`.
pub open spec fn slot_live(sel: u32, slot: int) -> bool {
    exists|i: int| 0 <= i < 4 && #[trigger] field_uses(sel, i, slot)
}

/// The first sub-slot of the recorded permute `e`, from `idx` on, whose
/// source equals `other_src`.
pub open spec fn first_match(e: PrmtEntry, other_src: Src, idx: int) -> Option<int>
    decreases 2 - idx,
{
    if idx < 0 || idx >= 2 {
        None
    } else if e.srcs[idx] == other_src {
        Some(idx)
    } else {
        first_match(e, other_src, idx + 1)
    }
}

/// The first sub-slot of the recorded permute `e`, from `idx` on, that its
/// own selector never reads.
pub open spec fn first_dead(e: PrmtEntry, idx: int) -> Option<int>
    decreases 2 - idx,
{
    if idx < 0 || idx >= 2 {
        None
    } else if !slot_live(e.selector_value, idx) {
        Some(idx)
    } else {
        first_dead(e, idx + 1)
    }
}

/// The sub-slot of a recorded permute `e` that a fusion substitutes into the
/// consumer's other slot, and whether the consumer's other slot is rewritten
/// too: a sub-slot whose source equals `other_src` first, else the first
/// dead sub-slot.
pub open spec fn first_target(e: PrmtEntry, other_src: Src) -> Option<(int, bool)> {
    match first_match(e, other_src, 0) {
        Some(t) => Some((t, true)),
        None => match first_dead(e, 0) {
            Some(t) => Some((t, false)),
            None => None,
        },
    }
}

/// The target sub-slot chosen when slot `s` of a permute with sources `srcs`
/// and selector `sel` is fused with the recorded permute `e`.
pub open spec fn target_choice(srcs: [Src; 2], sel: u32, s: int, e: PrmtEntry) -> Option<(int, bool)> {
    if !slot_live(sel, 1 - s) {
        Some((1 - s, true))
    } else {
        first_target(e, srcs[1 - s])
    }
}

/// Field `i` of the composed selector: a field that reads slot `s` reads,
/// instead, the byte that the producer (selector `psel`) puts there, from the
/// producer's source `t` moved to the consumer's other slot, or from the
/// producer's other source moved to slot `s`.
pub open spec fn fused_field(sel: u32, s: int, psel: u32, t: int, i: int) -> u32 {
    if field_uses(sel, i, s) {
        let local = field_byte(sel, i) & 3;
        let phys: int = if field_uses(psel, local as int, t) {
            1 - s
        } else {
            s
        };
        (((field_byte(psel, local as int) & 3) + 4 * phys) as u32) | (field_extend(sel, i)
            | field_extend(psel, local as int))
    } else {
        nibble(sel, i)
    }
}

/// The composed selector, its four fields packed.
pub open spec fn fused_selector(sel: u32, s: int, psel: u32, t: int) -> u32 {
    fused_field(sel, s, psel, t, 0) | (fused_field(sel, s, psel, t, 1) << 4u32) | (fused_field(
        sel,
        s,
        psel,
        t,
        2,
    ) << 8u32) | (fused_field(sel, s, psel, t, 3) << 12u32)
}

/// The first `k` fields of the composed selector.
pub open spec fn fused_prefix(sel: u32, s: int, psel: u32, t: int, k: int) -> u32 {
    if k <= 0 {
        0
    } else if k == 1 {
        fused_field(sel, s, psel, t, 0)
    } else if k == 2 {
        fused_field(sel, s, psel, t, 0) | (fused_field(sel, s, psel, t, 1) << 4u32)
    } else if k == 3 {
        fused_field(sel, s, psel, t, 0) | (fused_field(sel, s, psel, t, 1) << 4u32) | (
        fused_field(sel, s, psel, t, 2) << 8u32)
    } else {
        fused_selector(sel, s, psel, t)
    }
}

/// What a fusion puts in slot `j` when the new selector reads it: slot `s`
/// takes the producer's non-target source, the other slot the target source
/// when it is rewritten, and keeps its source otherwise.
pub open spec fn fused_operand(op: OpPrmt, s: int, e: PrmtEntry, t: int, replace: bool, j: int) -> Src {
    if j == s {
        e.srcs[1 - t]
    } else if replace {
        e.srcs[t]
    } else {
        op.srcs[j]
    }
}

/// A slot's source when the new selector reads it, the zero filler when not.
pub open spec fn live_or_zero(sel: u32, slot: int, src: Src) -> Src {
    if slot_live(sel, slot) {
        src
    } else {
        Src::Imm32(0)
    }
}

/// The permute `op` with its slot `s` fused with the recorded permute `e`, or
/// `None` when its selector is no literal or no target sub-slot is free.
pub open spec fn fused(op: OpPrmt, s: int, e: PrmtEntry) -> Option<OpPrmt> {
    match op.sel {
        Src::Imm32(sel) => match target_choice(op.srcs, sel, s, e) {
            Some((t, replace)) => {
                let nsel = fused_selector(sel, s, e.selector_value, t);
                let new_s = live_or_zero(nsel, s, fused_operand(op, s, e, t, replace, s));
                let new_other = if replace {
                    live_or_zero(nsel, 1 - s, fused_operand(op, s, e, t, replace, 1 - s))
                } else {
                    op.srcs[1 - s]
                };
                let srcs = if s == 0 {
                    [new_s, new_other]
                } else {
                    [new_other, new_s]
                };
                Some(OpPrmt { srcs, sel: Src::Imm32(nsel), ..op })
            },
            None => None,
        },
        _ => None,
    }
}

proof fn lemma_nibble_facts(x: u32)
    ensures
        (x & 0xf) & 7 == x & 7,
        (x & 0xf) & 8 == x & 8,
        ((x & 0xf) & 7) | ((x & 0xf) & 8) == x & 0xf,
        x & 0xf < 16,
        x >> 0u32 == x,
{
    assert((x & 0xf) & 7 == x & 7) by (bit_vector);
    assert((x & 0xf) & 8 == x & 8) by (bit_vector);
    assert(((x & 0xf) & 7) | ((x & 0xf) & 8) == x & 0xf) by (bit_vector);
    assert(x & 0xf < 16) by (bit_vector);
    assert(x >> 0u32 == x) by (bit_vector);
}

proof fn lemma_all_nibbles(sel: u32)
    ensures
        forall|i: int|
            0 <= i < 4 ==> #[trigger] nibble(sel, i) < 16 && field_byte(sel, i) | field_extend(sel, i)
                == nibble(sel, i) && field_byte(sel, i) < 8,
{
    lemma_nibble_facts(sel);
    lemma_nibble_facts(sel >> 4u32);
    lemma_nibble_facts(sel >> 8u32);
    lemma_nibble_facts(sel >> 12u32);
    assert forall|i: int| 0 <= i < 4 implies field_byte(sel, i) < 8 by {
        let n = nibble(sel, i);
        assert(n & 7 < 8) by (bit_vector);
    }
}

/// A field built of a byte index below 8 and two extend flags.
proof fn lemma_field_bits(a: u32, x: u32, y: u32)
    requires
        a < 8,
    ensures
        (a | ((x & 8) | (y & 8))) & 7 == a,
        ((a | ((x & 8) | (y & 8))) & 8 != 0) == ((x & 8) != 0 || (y & 8) != 0),
        (a | ((x & 8) | (y & 8))) < 16,
        (a | ((x & 8) | (y & 8))) & 0xf == a | ((x & 8) | (y & 8)),
{
    assert((a | ((x & 8) | (y & 8))) & 7 == a) by (bit_vector)
        requires
            a < 8,
    ;
    assert(((a | ((x & 8) | (y & 8))) & 8 != 0) == ((x & 8) != 0 || (y & 8) != 0)) by (bit_vector)
        requires
            a < 8,
    ;
    assert((a | ((x & 8) | (y & 8))) < 16) by (bit_vector)
        requires
            a < 8,
    ;
    assert((a | ((x & 8) | (y & 8))) & 0xf == a | ((x & 8) | (y & 8))) by (bit_vector)
        requires
            a < 8,
    ;
}

/// The local byte offset of a byte index: its low two bits.
proof fn lemma_low_bits(b: u32)
    requires
        b < 8,
    ensures
        b & 3 < 4,
        b < 4 ==> b & 3 == b,
        b > 3 ==> b & 3 == b - 4,
{
    assert(b & 3 < 4) by (bit_vector);
    assert(b < 4 ==> b & 3 == b) by (bit_vector);
    assert(b > 3 && b < 8 ==> b & 3 == b - 4) by (bit_vector);
}

/// Four fields below 16, packed, read back field by field.
proof fn lemma_pack(f0: u32, f1: u32, f2: u32, f3: u32)
    requires
        f0 < 16,
        f1 < 16,
        f2 < 16,
        f3 < 16,
    ensures
        ({
            let p = f0 | (f1 << 4u32) | (f2 << 8u32) | (f3 << 12u32);
            &&& nibble(p, 0) == f0
            &&& nibble(p, 1) == f1
            &&& nibble(p, 2) == f2
            &&& nibble(p, 3) == f3
        }),
{
    assert((f0 | (f1 << 4u32) | (f2 << 8u32) | (f3 << 12u32)) & 0xf == f0) by (bit_vector)
        requires
            f0 < 16,
            f1 < 16,
            f2 < 16,
            f3 < 16,
    ;
    assert(((f0 | (f1 << 4u32) | (f2 << 8u32) | (f3 << 12u32)) >> 4u32) & 0xf == f1)
        by (bit_vector)
        requires
            f0 < 16,
            f1 < 16,
            f2 < 16,
            f3 < 16,
    ;
    assert(((f0 | (f1 << 4u32) | (f2 << 8u32) | (f3 << 12u32)) >> 8u32) & 0xf == f2)
        by (bit_vector)
        requires
            f0 < 16,
            f1 < 16,
            f2 < 16,
            f3 < 16,
    ;
    assert(((f0 | (f1 << 4u32) | (f2 << 8u32) | (f3 << 12u32)) >> 12u32) & 0xf == f3)
        by (bit_vector)
        requires
            f0 < 16,
            f1 < 16,
            f2 < 16,
            f3 < 16,
    ;
}

/// Each field of the composed selector is a 4-bit value, and reads back.
pub proof fn lemma_fused_fields(sel: u32, s: int, psel: u32, t: int)
    requires
        0 <= s < 2,
    ensures
        forall|i: int|
            0 <= i < 4 ==> #[trigger] nibble(fused_selector(sel, s, psel, t), i) == fused_field(
                sel,
                s,
                psel,
                t,
                i,
            ) && fused_field(sel, s, psel, t, i) < 16,
{
    lemma_all_nibbles(sel);
    lemma_all_nibbles(psel);
    assert forall|i: int| 0 <= i < 4 implies #[trigger] fused_field(sel, s, psel, t, i) < 16 by {
        if field_uses(sel, i, s) {
            let local = field_byte(sel, i) & 3;
            lemma_low_bits(field_byte(sel, i));
            lemma_low_bits(field_byte(psel, local as int));
            let phys: int = if field_uses(psel, local as int, t) {
                1 - s
            } else {
                s
            };
            let a = ((field_byte(psel, local as int) & 3) + 4 * phys) as u32;
            lemma_field_bits(a, nibble(sel, i), nibble(psel, local as int));
        }
    }
    lemma_pack(
        fused_field(sel, s, psel, t, 0),
        fused_field(sel, s, psel, t, 1),
        fused_field(sel, s, psel, t, 2),
        fused_field(sel, s, psel, t, 3),
    );
}

fn extract_byte_select(selector: u32, index: u32) -> (r: (u32, u32))
    requires
        index < 4,
    ensures
        r.0 == field_byte(selector, index as int),
        r.1 == field_extend(selector, index as int),
{
    let byte_selected = (selector >> (index * 4)) & 0x7;
    let signed_mod = (selector >> (index * 4)) & 0x8;
    proof {
        lemma_nibble_facts(selector);
        lemma_nibble_facts(selector >> 4u32);
        lemma_nibble_facts(selector >> 8u32);
        lemma_nibble_facts(selector >> 12u32);
    }
    (byte_selected, signed_mod)
}

fn is_byte_using_src(selector: u32, byte_index: u32, src_idx: usize) -> (r: bool)
    requires
        byte_index < 4,
    ensures
        r == field_uses(selector, byte_index as int, src_idx as int),
{
    let (byte_selected, _) = extract_byte_select(selector, byte_index);

    match src_idx {
        0 if byte_selected < 4 => true,
        1 if byte_selected > 3 => true,
        _ => false,
    }
}

fn is_src_used(selector: u32, src_idx: usize) -> (r: bool)
    ensures
        r == slot_live(selector, src_idx as int),
{
    let mut byte_index: u32 = 0;
    while byte_index < 4
        invariant
            byte_index <= 4,
            forall|j: int| 0 <= j < byte_index ==> !field_uses(selector, j, src_idx as int),
        decreases 4 - byte_index,
    {
        if is_byte_using_src(selector, byte_index, src_idx) {
            return true;
        }
        byte_index += 1;
    }
    false
}

proof fn lemma_first_target(e: PrmtEntry, other_src: Src)
    ensures
        match first_target(e, other_src) {
            Some((t, replace)) => {
                &&& 0 <= t < 2
                &&& replace ==> e.srcs[t] == other_src
                &&& !replace ==> !slot_live(e.selector_value, t)
            },
            None => true,
        },
{
    reveal_with_fuel(first_match, 3);
    reveal_with_fuel(first_dead, 3);
}

/// The producer table of one function: each SSA value defined by an
/// index-mode permute with a literal selector, and that permute.
struct PrmtPass {
    ssa_prmt: std::collections::HashMap<SSAValue, PrmtEntry>,
}

impl PrmtPass {
    /// The table as a map.
    spec fn table(&self) -> Map<SSAValue, PrmtEntry> {
        self.ssa_prmt@
    }

    fn new() -> (r: PrmtPass)
        ensures
            r.table() == Map::<SSAValue, PrmtEntry>::empty(),
    {
        PrmtPass { ssa_prmt: std::collections::HashMap::new() }
    }

    fn try_dedup_srcs(&self, op: &mut OpPrmt, src_idx: usize, other_op_entry: &PrmtEntry) -> (r:
        bool)
        requires
            src_idx < 2,
        ensures
            r ==> fused(*old(op), src_idx as int, *other_op_entry) == Some(*final(op)),
            !r ==> fused(*old(op), src_idx as int, *other_op_entry) is None && *final(op) == *old(
                op,
            ),
    {
        let selector_value = match op.sel {
            Src::Imm32(v) => v,
            _ => return false,
        };

        let other_src_idx = 1 - src_idx;
        let other_src = op.srcs[other_src_idx];
        let psel = other_op_entry.selector_value;

        let mut other_op_target_src_idx: Option<(usize, bool)> = None;

        let mut idx: usize = 0;
        while idx < 2 && other_op_target_src_idx.is_none()
            invariant
                idx <= 2,
                match other_op_target_src_idx {
                    None => first_match(*other_op_entry, other_src, 0) == first_match(
                        *other_op_entry,
                        other_src,
                        idx as int,
                    ),
                    Some((t, replace)) => replace && first_match(*other_op_entry, other_src, 0)
                        == Some(t as int),
                },
            decreases 2 - idx,
        {
            if other_op_entry.srcs[idx] == other_src {
                other_op_target_src_idx = Some((idx, true));
            }
            idx += 1;
        }

        let mut idx: usize = 0;
        while idx < 2 && other_op_target_src_idx.is_none()
            invariant
                idx <= 2,
                psel == other_op_entry.selector_value,
                match other_op_target_src_idx {
                    None => first_match(*other_op_entry, other_src, 0) is None && first_dead(
                        *other_op_entry,
                        0,
                    ) == first_dead(*other_op_entry, idx as int),
                    Some(target) => first_target(*other_op_entry, other_src) == Some(
                        (target.0 as int, target.1),
                    ),
                },
            decreases 2 - idx,
        {
            if !is_src_used(psel, idx) {
                other_op_target_src_idx = Some((idx, false));
            }
            idx += 1;
        }

        if !is_src_used(selector_value, other_src_idx) {
            other_op_target_src_idx = Some((other_src_idx, true));
        }

        let (other_op_target_src_idx, replace_other_src) = match other_op_target_src_idx {
            Some(target) => target,
            None => return false,
        };
        proof {
            lemma_first_target(*other_op_entry, other_src);
            assert(target_choice(op.srcs, selector_value, src_idx as int, *other_op_entry) == Some(
                (other_op_target_src_idx as int, replace_other_src),
            ));
        }

        let other_op_other_src_idx = 1 - other_op_target_src_idx;
        let ghost t = other_op_target_src_idx as int;
        let ghost s = src_idx as int;

        let mut new_selector: u32 = 0;
        let mut index: u32 = 0;
        while index < 4
            invariant
                index <= 4,
                src_idx < 2,
                other_src_idx == 1 - src_idx,
                other_op_target_src_idx < 2,
                t == other_op_target_src_idx as int,
                s == src_idx as int,
                psel == other_op_entry.selector_value,
                new_selector == fused_prefix(selector_value, s, psel, t, index as int),
            decreases 4 - index,
        {
            let (byte_selected, signed_mod) = if is_byte_using_src(selector_value, index, src_idx) {
                let (current_byte_selected, current_signed_mod) = extract_byte_select(
                    selector_value,
                    index,
                );
                proof {
                    lemma_all_nibbles(selector_value);
                    lemma_low_bits(current_byte_selected);
                }
                let current_byte_index = current_byte_selected & 0x3;

                let (target_byte_selected, target_signed_mod) = extract_byte_select(
                    psel,
                    current_byte_index,
                );

                let target_src_idx = if is_byte_using_src(
                    psel,
                    current_byte_index,
                    other_op_target_src_idx,
                ) {
                    other_src_idx
                } else {
                    src_idx
                };

                proof {
                    lemma_all_nibbles(psel);
                    lemma_low_bits(target_byte_selected);
                }
                let target_byte_index = (target_byte_selected & 0x3) + target_src_idx as u32 * 4;
                proof {
                    assert(target_byte_index | (current_signed_mod | target_signed_mod)
                        == fused_field(selector_value, s, psel, t, index as int));
                }

                (target_byte_index, current_signed_mod | target_signed_mod)
            } else {
                let (b, m) = extract_byte_select(selector_value, index);
                proof {
                    lemma_all_nibbles(selector_value);
                    assert(nibble(selector_value, index as int) < 16);
                    assert(b | m == fused_field(selector_value, s, psel, t, index as int));
                }
                (b, m)
            };
            proof {
                let v = byte_selected | signed_mod;
                assert(0u32 | (v << 0u32) == v) by (bit_vector);
            }

            new_selector |= (byte_selected | signed_mod) << (index * 4);
            index += 1;
        }

        let new_src = if is_src_used(new_selector, src_idx) {
            other_op_entry.srcs[other_op_other_src_idx]
        } else {
            Src::Imm32(0)
        };

        op.srcs[src_idx] = new_src;

        if replace_other_src {
            let new_other_src = if is_src_used(new_selector, other_src_idx) {
                other_op_entry.srcs[other_op_target_src_idx]
            } else {
                Src::Imm32(0)
            };

            op.srcs[other_src_idx] = new_other_src;
        }

        op.sel = Src::Imm32(new_selector);

        proof {
            broadcast use vstd::array::group_array_axioms;

            let new_op = fused(*old(op), s, *other_op_entry)->Some_0;
            assert(new_selector == fused_selector(selector_value, s, psel, t));
            assert(op.srcs@ =~= new_op.srcs@);
            assert(op.srcs == new_op.srcs);
            assert(op.sel == new_op.sel);
        }
        true
    }
}

/// Byte `k` (0..3) of a 32-bit value.
pub open spec fn byte_of(x: u32, k: u32) -> u32 {
    (x >> ((k * 8) as u32)) & 0xff
}

/// The byte that replicates the sign bit of byte `v`.
pub open spec fn sign_fill(v: u32) -> u32 {
    if v & 0x80 != 0 {
        0xff
    } else {
        0
    }
}

/// Output byte `i` of a permute with source values `a`, `b` and selector `sel`.
pub open spec fn prmt_byte(a: u32, b: u32, sel: u32, i: int) -> u32 {
    let k = field_byte(sel, i);
    let v = if k < 4 {
        byte_of(a, k)
    } else {
        byte_of(b, (k - 4) as u32)
    };
    if field_extend(sel, i) != 0 {
        sign_fill(v)
    } else {
        v
    }
}

/// The value of an operand, SSA values being read from `env`.
pub open spec fn src_value(src: Src, env: spec_fn(SSAValue) -> u32) -> u32 {
    match src {
        Src::Imm32(v) => v,
        Src::SSA(x) => env(x),
    }
}

/// Output byte `i` of a permute with sources `srcs` and selector `sel`.
pub open spec fn eval_byte(srcs: [Src; 2], sel: u32, env: spec_fn(SSAValue) -> u32, i: int) -> u32 {
    prmt_byte(src_value(srcs[0], env), src_value(srcs[1], env), sel, i)
}

proof fn lemma_sign_fill_twice(v: u32)
    ensures
        sign_fill(sign_fill(v)) == sign_fill(v),
{
    assert(0xffu32 & 0x80 != 0) by (bit_vector);
    assert(0u32 & 0x80 == 0) by (bit_vector);
}

/// Facts on a fusion that the laws below rest on.
proof fn lemma_fused_shape(op: OpPrmt, s: int, e: PrmtEntry) -> (r: (u32, int, bool))
    requires
        0 <= s < 2,
        fused(op, s, e) is Some,
    ensures
        op.sel == Src::Imm32(r.0),
        target_choice(op.srcs, r.0, s, e) == Some((r.1, r.2)),
        0 <= r.1 < 2,
        r.2 ==> !slot_live(r.0, 1 - s) || e.srcs[r.1] == op.srcs[1 - s],
        !r.2 ==> !slot_live(e.selector_value, r.1),
        ({
            let new = fused(op, s, e)->Some_0;
            let nsel = fused_selector(r.0, s, e.selector_value, r.1);
            &&& new.sel == Src::Imm32(nsel)
            &&& new.dst == op.dst
            &&& new.mode == op.mode
            &&& new.srcs[s] == live_or_zero(nsel, s, fused_operand(op, s, e, r.1, r.2, s))
            &&& new.srcs[1 - s] == if r.2 {
                live_or_zero(nsel, 1 - s, fused_operand(op, s, e, r.1, r.2, 1 - s))
            } else {
                op.srcs[1 - s]
            }
        }),
{
    let sel = op.sel->Imm32_0;
    let (t, replace) = target_choice(op.srcs, sel, s, e)->Some_0;
    lemma_first_target(e, op.srcs[1 - s]);
    (sel, t, replace)
}

/// Fusing slot `s` of a permute with the recorded permute `e` that defines
/// it leaves every output byte as it was, for every value of the sources:
/// where slot `s` holds what `e` computes, the fused permute computes what
/// the chain computed.
pub proof fn lemma_fusion_preserves_bytes(
    op: OpPrmt,
    s: int,
    e: PrmtEntry,
    env: spec_fn(SSAValue) -> u32,
    i: int,
)
    requires
        0 <= s < 2,
        0 <= i < 4,
        fused(op, s, e) is Some,
        forall|j: u32|
            j < 4 ==> byte_of(src_value(op.srcs[s], env), j) == eval_byte(
                e.srcs,
                e.selector_value,
                env,
                j as int,
            ),
    ensures
        ({
            let new = fused(op, s, e)->Some_0;
            eval_byte(new.srcs, new.sel->Imm32_0, env, i) == eval_byte(op.srcs, op.sel->Imm32_0, env, i)
        }),
{
    let (sel, t, replace) = lemma_fused_shape(op, s, e);
    let new = fused(op, s, e)->Some_0;
    let psel = e.selector_value;
    let nsel = fused_selector(sel, s, psel, t);
    lemma_fused_fields(sel, s, psel, t);
    lemma_all_nibbles(sel);
    lemma_all_nibbles(psel);
    assert(nibble(nsel, i) == fused_field(sel, s, psel, t, i));
    if field_uses(sel, i, s) {
        let fb = field_byte(sel, i);
        let local = fb & 3;
        lemma_low_bits(fb);
        let pk = field_byte(psel, local as int);
        lemma_low_bits(pk);
        let phys: int = if field_uses(psel, local as int, t) {
            1 - s
        } else {
            s
        };
        let a = ((pk & 3) + 4 * phys) as u32;
        lemma_field_bits(a, nibble(sel, i), nibble(psel, local as int));
        assert(field_byte(nsel, i) == a);
        assert((field_extend(nsel, i) != 0) == (field_extend(sel, i) != 0 || field_extend(
            psel,
            local as int,
        ) != 0));
        // the new field reads slot `phys`, which holds the producer's source
        assert(field_uses(nsel, i, phys));
        assert(slot_live(nsel, phys));
        if phys != s {
            assert(field_uses(psel, local as int, t));
            assert(slot_live(psel, t));
            assert(replace);
            assert(new.srcs[phys] == e.srcs[t]);
        } else {
            assert(new.srcs[phys] == e.srcs[1 - t]);
        }
        // the byte that the producer's field `local` reads
        let w = if pk < 4 {
            byte_of(src_value(e.srcs[0], env), pk)
        } else {
            byte_of(src_value(e.srcs[1], env), (pk - 4) as u32)
        };
        let v_new = if a < 4 {
            byte_of(src_value(new.srcs[0], env), a)
        } else {
            byte_of(src_value(new.srcs[1], env), (a - 4) as u32)
        };
        assert(v_new == w);
        let v_old = if fb < 4 {
            byte_of(src_value(op.srcs[0], env), fb)
        } else {
            byte_of(src_value(op.srcs[1], env), (fb - 4) as u32)
        };
        assert(v_old == byte_of(src_value(op.srcs[s], env), local));
        assert(v_old == eval_byte(e.srcs, psel, env, local as int));
        lemma_sign_fill_twice(w);
    } else {
        assert(field_uses(sel, i, 1 - s));
        assert(slot_live(sel, 1 - s));
        assert(field_uses(nsel, i, 1 - s));
        assert(slot_live(nsel, 1 - s));
        assert(new.srcs[1 - s] == op.srcs[1 - s]);
    }
}

/// A fusion puts the zero filler only in slots that no field of the new
/// selector reads: every slot it reads holds the source that the fusion
/// moved there.
pub proof fn lemma_fusion_fills_only_dead_slots(op: OpPrmt, s: int, e: PrmtEntry)
    requires
        0 <= s < 2,
        fused(op, s, e) is Some,
    ensures
        ({
            let new = fused(op, s, e)->Some_0;
            let sel = op.sel->Imm32_0;
            let (t, replace) = target_choice(op.srcs, sel, s, e)->Some_0;
            forall|j: int|
                0 <= j < 2 && slot_live(new.sel->Imm32_0, j) ==> new.srcs[j] == fused_operand(
                    op,
                    s,
                    e,
                    t,
                    replace,
                    j,
                )
        }),
{
    lemma_fused_shape(op, s, e);
}

/// A field of the new selector that replaces one reading slot `s` keeps the
/// extend flag when the consumer's field or the producer's field asked for
/// it; a field that does not read slot `s` is kept as it was.
pub proof fn lemma_fusion_keeps_extend(op: OpPrmt, s: int, e: PrmtEntry, i: int)
    requires
        0 <= s < 2,
        0 <= i < 4,
        fused(op, s, e) is Some,
    ensures
        ({
            let sel = op.sel->Imm32_0;
            let nsel = fused(op, s, e)->Some_0.sel->Imm32_0;
            let local = field_byte(sel, i) & 3;
            &&& field_uses(sel, i, s) && (field_extend(sel, i) != 0 || field_extend(
                e.selector_value,
                local as int,
            ) != 0) ==> field_extend(nsel, i) != 0
            &&& !field_uses(sel, i, s) ==> nibble(nsel, i) == nibble(sel, i)
        }),
{
    let (sel, t, replace) = lemma_fused_shape(op, s, e);
    let psel = e.selector_value;
    lemma_fused_fields(sel, s, psel, t);
    lemma_all_nibbles(sel);
    lemma_all_nibbles(psel);
    if field_uses(sel, i, s) {
        let fb = field_byte(sel, i);
        let local = fb & 3;
        lemma_low_bits(fb);
        let pk = field_byte(psel, local as int);
        lemma_low_bits(pk);
        let phys: int = if field_uses(psel, local as int, t) {
            1 - s
        } else {
            s
        };
        let a = ((pk & 3) + 4 * phys) as u32;
        lemma_field_bits(a, nibble(sel, i), nibble(psel, local as int));
    }
}

/// Slot `s` of `op` after folding it with the recorded producers of `table`,
/// one producer after another, at most `fuel` times.
pub open spec fn fold_slot(table: Map<SSAValue, PrmtEntry>, op: OpPrmt, s: int, fuel: nat) -> OpPrmt
    decreases fuel,
{
    if fuel == 0 {
        op
    } else {
        match op.srcs[s] {
            Src::SSA(v) => if table.contains_key(v) {
                match fused(op, s, table[v]) {
                    Some(new) => fold_slot(table, new, s, (fuel - 1) as nat),
                    None => op,
                }
            } else {
                op
            },
            _ => op,
        }
    }
}

/// An index-mode permute after its two slots were folded, in order, with
/// `table`; a permute in another mode is left as it is. A chain in
/// well-formed code reaches each recorded producer at most once, so the
/// number of recorded producers bounds the folds of one slot.
pub open spec fn optimized(table: Map<SSAValue, PrmtEntry>, op: OpPrmt) -> OpPrmt {
    let n = table.len();
    if op.mode is Index {
        fold_slot(table, fold_slot(table, op, 0, n), 1, n)
    } else {
        op
    }
}

/// The table after a permute that defines an SSA value was visited: an
/// index-mode permute with a literal selector is recorded.
pub open spec fn recorded(table: Map<SSAValue, PrmtEntry>, op: OpPrmt) -> Map<SSAValue, PrmtEntry> {
    match (op.dst, op.mode, op.sel) {
        (Dst::SSA(v), PrmtMode::Index, Src::Imm32(sel)) => table.insert(
            v,
            PrmtEntry { srcs: op.srcs, selector_value: sel },
        ),
        _ => table,
    }
}

/// The instructions of a block after the pass, and the table after them.
pub open spec fn pass_instrs(table: Map<SSAValue, PrmtEntry>, instrs: Seq<Instr>) -> (Seq<Instr>, Map<
    SSAValue,
    PrmtEntry,
>)
    decreases instrs.len(),
{
    if instrs.len() == 0 {
        (instrs, table)
    } else {
        let (done, t) = pass_instrs(table, instrs.drop_last());
        match instrs.last().op {
            Op::Prmt(op) => {
                let new = optimized(t, op);
                (done.push(Instr { op: Op::Prmt(new) }), recorded(t, new))
            },
            _ => (done.push(instrs.last()), t),
        }
    }
}

/// The instructions of each block after the pass, and the table after them.
pub open spec fn pass_blocks(table: Map<SSAValue, PrmtEntry>, blocks: Seq<Seq<Instr>>) -> (Seq<
    Seq<Instr>,
>, Map<SSAValue, PrmtEntry>)
    decreases blocks.len(),
{
    if blocks.len() == 0 {
        (blocks, table)
    } else {
        let (done, t) = pass_blocks(table, blocks.drop_last());
        let (last, t2) = pass_instrs(t, blocks.last());
        (done.push(last), t2)
    }
}

/// The instructions of each block.
pub open spec fn block_instrs(blocks: Seq<BasicBlock>) -> Seq<Seq<Instr>> {
    blocks.map_values(|b: BasicBlock| b.instrs@)
}

/// A permute whose selector is no literal is never folded.
pub proof fn lemma_fold_needs_literal(table: Map<SSAValue, PrmtEntry>, op: OpPrmt, s: int, fuel: nat)
    requires
        !(op.sel is Imm32),
    ensures
        fold_slot(table, op, s, fuel) == op,
{
}

impl PrmtPass {
    fn add_prmt(&mut self, ssa: SSAValue, mode: PrmtMode, srcs: [Src; 2], sel: Src)
        ensures
            final(self).table() == match (mode, sel) {
                (PrmtMode::Index, Src::Imm32(v)) => old(self).table().insert(
                    ssa,
                    PrmtEntry { srcs, selector_value: v },
                ),
                _ => old(self).table(),
            },
    {
        broadcast use vstd::std_specs::hash::group_hash_axioms;

        if mode != PrmtMode::Index {
            return;
        }
        let selector_value = match sel {
            Src::Imm32(v) => v,
            _ => return,
        };

        let entry = PrmtEntry { srcs, selector_value };
        self.ssa_prmt.insert(ssa, entry);
    }

    fn try_optimize_selector(&mut self, op: &mut OpPrmt, src_idx: usize)
        requires
            src_idx < 2,
        ensures
            *final(self) == *old(self),
            *final(op) == fold_slot(old(self).table(), *old(op), src_idx as int, old(self).table().len()),
    {
        broadcast use vstd::std_specs::hash::group_hash_axioms;

        let ghost table = self.table();
        let ghost start = *op;
        // Each fold reaches a producer defined earlier than the last one, so
        // a chain has at most as many links as the table has entries.
        let mut fuel: usize = self.ssa_prmt.len();
        loop
            invariant
                src_idx < 2,
                self.table() == table,
                *self == *old(self),
                start == *old(op),
                fold_slot(table, *op, src_idx as int, fuel as nat) == fold_slot(
                    table,
                    start,
                    src_idx as int,
                    table.len(),
                ),
            decreases fuel,
        {
            if fuel == 0 {
                return;
            }
            let ssa = match op.srcs[src_idx] {
                Src::SSA(v) => v,
                _ => return,
            };

            let other_entry = match self.ssa_prmt.get(&ssa) {
                Some(entry) => *entry,
                None => return,
            };

            if !self.try_dedup_srcs(op, src_idx, &other_entry) {
                return;
            }
            fuel -= 1;
        }
    }

    fn opt_prmt(&mut self, op: &mut OpPrmt)
        ensures
            *final(op) == optimized(old(self).table(), *old(op)),
            final(self).table() == recorded(old(self).table(), *final(op)),
            !(old(op).sel is Imm32) ==> *final(op) == *old(op),
            !(old(op).mode is Index) ==> *final(op) == *old(op) && final(self).table() == old(
                self,
            ).table(),
    {
        if op.mode != PrmtMode::Index {
            return;
        }
        let ghost table = self.table();
        let ghost start = *op;
        let mut i: usize = 0;
        while i < op.srcs.len()
            invariant
                i <= 2,
                self.table() == table,
                i == 0 ==> *op == start,
                i == 1 ==> *op == fold_slot(table, start, 0, table.len()),
                i == 2 ==> *op == optimized(table, start),
                start.mode is Index,
            decreases 2 - i,
        {
            self.try_optimize_selector(op, i);
            i += 1;
        }
        proof {
            if !(start.sel is Imm32) {
                lemma_fold_needs_literal(table, start, 0, table.len());
                lemma_fold_needs_literal(table, start, 1, table.len());
            }
        }

        if let Dst::SSA(ssa) = op.dst {
            self.add_prmt(ssa, op.mode, op.srcs, op.sel);
        }
    }

    fn run_block(&mut self, instrs: &Vec<Instr>) -> (r: Vec<Instr>)
        ensures
            (r@, final(self).table()) == pass_instrs(old(self).table(), instrs@),
    {
        let ghost table = self.table();
        let mut out: Vec<Instr> = Vec::new();
        let mut i: usize = 0;
        while i < instrs.len()
            invariant
                i <= instrs.len(),
                (out@, self.table()) == pass_instrs(table, instrs@.take(i as int)),
            decreases instrs.len() - i,
        {
            proof {
                assert(instrs@.take(i as int + 1).drop_last() =~= instrs@.take(i as int));
            }
            let instr = instrs[i];
            match instr.op {
                Op::Prmt(op) => {
                    let mut op = op;
                    self.opt_prmt(&mut op);
                    out.push(Instr { op: Op::Prmt(op) });
                },
                _ => out.push(instr),
            }
            i += 1;
        }
        proof {
            assert(instrs@.take(instrs@.len() as int) =~= instrs@);
        }
        out
    }

    fn run(&mut self, f: &mut Function)
        ensures
            (block_instrs(final(f).blocks@), final(self).table()) == pass_blocks(
                old(self).table(),
                block_instrs(old(f).blocks@),
            ),
    {
        let ghost table = self.table();
        let ghost blocks = block_instrs(f.blocks@);
        let mut new_blocks: Vec<BasicBlock> = Vec::new();
        let mut b: usize = 0;
        while b < f.blocks.len()
            invariant
                b <= f.blocks.len(),
                f == old(f),
                blocks == block_instrs(f.blocks@),
                (block_instrs(new_blocks@), self.table()) == pass_blocks(table, blocks.take(b as int)),
            decreases f.blocks.len() - b,
        {
            proof {
                assert(blocks.take(b as int + 1).drop_last() =~= blocks.take(b as int));
            }
            let instrs = self.run_block(&f.blocks[b].instrs);
            new_blocks.push(BasicBlock { instrs });
            proof {
                assert(block_instrs(new_blocks@) =~= pass_blocks(table, blocks.take(b as int + 1)).0);
            }
            b += 1;
        }
        proof {
            assert(blocks.take(blocks.len() as int) =~= blocks);
        }
        f.blocks = new_blocks;
    }
}

impl Shader {
    /// Folds chained index-mode permutes with literal selectors, function by
    /// function, each function with a table of its own.
    pub fn opt_prmt(&mut self)
        ensures
            final(self).functions@.len() == old(self).functions@.len(),
            forall|k: int|
                0 <= k < old(self).functions@.len() ==> block_instrs(
                    #[trigger] final(self).functions@[k].blocks@,
                ) == pass_blocks(
                    Map::<SSAValue, PrmtEntry>::empty(),
                    block_instrs(old(self).functions@[k].blocks@),
                ).0,
            forall|k: int|
                0 <= k < old(self).functions@.len() ==> keeps_shape(
                    block_instrs(#[trigger] old(self).functions@[k].blocks@),
                    block_instrs(final(self).functions@[k].blocks@),
                ),
    {
        let mut k: usize = 0;
        while k < self.functions.len()
            invariant
                k <= self.functions.len(),
                self.functions@.len() == old(self).functions@.len(),
                forall|j: int|
                    #![trigger self.functions@[j]]
                    0 <= j < self.functions@.len() ==> if j < k {
                        block_instrs(self.functions@[j].blocks@) == pass_blocks(
                            Map::<SSAValue, PrmtEntry>::empty(),
                            block_instrs(old(self).functions@[j].blocks@),
                        ).0 && keeps_shape(
                            block_instrs(old(self).functions@[j].blocks@),
                            block_instrs(self.functions@[j].blocks@),
                        )
                    } else {
                        self.functions@[j] == old(self).functions@[j]
                    },
            decreases self.functions.len() - k,
        {
            let ghost prev = self.functions@;
            let mut pass = PrmtPass::new();
            pass.run(&mut self.functions[k]);
            proof {
                assert forall|j: int| 0 <= j < self.functions@.len() && j != k implies
                    self.functions@[j] == prev[j] by {}
                lemma_pass_keeps_shape(
                    Map::<SSAValue, PrmtEntry>::empty(),
                    block_instrs(old(self).functions@[k as int].blocks@),
                );
                assert(block_instrs(self.functions@[k as int].blocks@) == pass_blocks(
                    Map::<SSAValue, PrmtEntry>::empty(),
                    block_instrs(old(self).functions@[k as int].blocks@),
                ).0);
            }
            k += 1;
        }
    }
}

/// Every recorded producer's value in `env` is what its entry computes.
pub open spec fn producers_hold(table: Map<SSAValue, PrmtEntry>, env: spec_fn(SSAValue) -> u32) -> bool {
    forall|v: SSAValue, j: u32|
        table.contains_key(v) && j < 4 ==> #[trigger] byte_of(env(v), j) == eval_byte(
            table[v].srcs,
            table[v].selector_value,
            env,
            j as int,
        )
}

/// Folding a slot through a chain of recorded producers of any length
/// leaves every output byte as it was, where each producer's value is what
/// its entry computes.
pub proof fn lemma_fold_preserves_bytes(
    table: Map<SSAValue, PrmtEntry>,
    op: OpPrmt,
    s: int,
    fuel: nat,
    env: spec_fn(SSAValue) -> u32,
    i: int,
)
    requires
        0 <= s < 2,
        0 <= i < 4,
        producers_hold(table, env),
    ensures
        ({
            let new = fold_slot(table, op, s, fuel);
            eval_byte(new.srcs, new.sel->Imm32_0, env, i) == eval_byte(op.srcs, op.sel->Imm32_0, env, i)
        }),
    decreases fuel,
{
    if fuel > 0 {
        if let Src::SSA(v) = op.srcs[s] {
            if table.contains_key(v) {
                if let Some(new) = fused(op, s, table[v]) {
                    lemma_fusion_preserves_bytes(op, s, table[v], env, i);
                    lemma_fold_preserves_bytes(table, new, s, (fuel - 1) as nat, env, i);
                }
            }
        }
    }
}

/// The pass's rewrite of one permute, both slots folded, computes the same
/// four output bytes as the permute did, where each recorded producer's
/// value is what its entry computes.
pub proof fn lemma_optimized_preserves_bytes(
    table: Map<SSAValue, PrmtEntry>,
    op: OpPrmt,
    env: spec_fn(SSAValue) -> u32,
    i: int,
)
    requires
        0 <= i < 4,
        producers_hold(table, env),
    ensures
        ({
            let new = optimized(table, op);
            eval_byte(new.srcs, new.sel->Imm32_0, env, i) == eval_byte(op.srcs, op.sel->Imm32_0, env, i)
        }),
{
    let n = table.len();
    if op.mode is Index {
        lemma_fold_preserves_bytes(table, op, 0, n, env, i);
        lemma_fold_preserves_bytes(table, fold_slot(table, op, 0, n), 1, n, env, i);
    }
}

proof fn lemma_fold_keeps_dst_mode(table: Map<SSAValue, PrmtEntry>, op: OpPrmt, s: int, fuel: nat)
    requires
        0 <= s < 2,
    ensures
        fold_slot(table, op, s, fuel).dst == op.dst,
        fold_slot(table, op, s, fuel).mode == op.mode,
        fold_slot(table, op, s, fuel).sel is Imm32 ==> op.sel is Imm32,
    decreases fuel,
{
    if fuel > 0 {
        if let Src::SSA(v) = op.srcs[s] {
            if table.contains_key(v) {
                if let Some(new) = fused(op, s, table[v]) {
                    lemma_fused_shape(op, s, table[v]);
                    lemma_fold_keeps_dst_mode(table, new, s, (fuel - 1) as nat);
                }
            }
        }
    }
}

/// The value that an instruction defines in `env` is what it computes, where
/// it is an index-mode permute with a literal selector.
pub open spec fn defines_hold(instr: Instr, env: spec_fn(SSAValue) -> u32) -> bool {
    match instr.op {
        Op::Prmt(op) => match (op.dst, op.mode, op.sel) {
            (Dst::SSA(v), PrmtMode::Index, Src::Imm32(sel)) => forall|j: u32|
                j < 4 ==> #[trigger] byte_of(env(v), j) == eval_byte(op.srcs, sel, env, j as int),
            _ => true,
        },
        _ => true,
    }
}

/// Two instructions compute the same output bytes in `env`, where `b` is an
/// index-mode permute, and are equal otherwise.
pub open spec fn same_bytes(a: Instr, b: Instr, env: spec_fn(SSAValue) -> u32) -> bool {
    match (a.op, b.op) {
        (Op::Prmt(x), Op::Prmt(y)) if y.mode is Index => forall|i: int|
            0 <= i < 4 ==> #[trigger] eval_byte(x.srcs, x.sel->Imm32_0, env, i) == eval_byte(
                y.srcs,
                y.sel->Imm32_0,
                env,
                i,
            ),
        _ => a == b,
    }
}

/// Over the instructions of a block, the pass changes no instruction's
/// output bytes in an `env` that gives each SSA value what its definition
/// computes, and its table keeps holding there.
pub proof fn lemma_pass_instrs_preserves_bytes(
    table: Map<SSAValue, PrmtEntry>,
    instrs: Seq<Instr>,
    env: spec_fn(SSAValue) -> u32,
)
    requires
        producers_hold(table, env),
        forall|k: int| 0 <= k < instrs.len() ==> defines_hold(#[trigger] instrs[k], env),
    ensures
        ({
            let (out, t) = pass_instrs(table, instrs);
            &&& out.len() == instrs.len()
            &&& producers_hold(t, env)
            &&& forall|k: int| 0 <= k < instrs.len() ==> same_bytes(#[trigger] out[k], instrs[k], env)
        }),
    decreases instrs.len(),
{
    if instrs.len() > 0 {
        let prefix = instrs.drop_last();
        assert forall|k: int| 0 <= k < prefix.len() implies defines_hold(#[trigger] prefix[k], env) by {
            assert(prefix[k] == instrs[k]);
        }
        lemma_pass_instrs_preserves_bytes(table, prefix, env);
        let (done, t) = pass_instrs(table, prefix);
        let (out, t2) = pass_instrs(table, instrs);
        let last = instrs.last();
        assert(defines_hold(instrs[instrs.len() - 1], env));
        if let Op::Prmt(op) = last.op {
            let new = optimized(t, op);
            assert forall|i: int| 0 <= i < 4 implies #[trigger] eval_byte(
                new.srcs,
                new.sel->Imm32_0,
                env,
                i,
            ) == eval_byte(op.srcs, op.sel->Imm32_0, env, i) by {
                lemma_optimized_preserves_bytes(t, op, env, i);
            }
            let n = t.len();
            lemma_fold_keeps_dst_mode(t, op, 0, n);
            lemma_fold_keeps_dst_mode(t, fold_slot(t, op, 0, n), 1, n);
            if let (Dst::SSA(v), PrmtMode::Index, Src::Imm32(sel)) = (new.dst, new.mode, new.sel) {
                assert forall|w: SSAValue, j: u32| t2.contains_key(w) && j < 4 implies #[trigger] byte_of(
                    env(w),
                    j,
                ) == eval_byte(t2[w].srcs, t2[w].selector_value, env, j as int) by {
                    if w == v {
                        lemma_optimized_preserves_bytes(t, op, env, j as int);
                    }
                }
            }
        }
        assert forall|k: int| 0 <= k < instrs.len() implies same_bytes(
            #[trigger] out[k],
            instrs[k],
            env,
        ) by {
            if k < prefix.len() {
                assert(out[k] == done[k]);
                assert(prefix[k] == instrs[k]);
            }
        }
    }
}

/// Over the blocks of a function, the pass changes no instruction's output
/// bytes in an `env` that gives each SSA value what its definition computes:
/// a fused permute computes what the chain it replaces computed.
pub proof fn lemma_pass_preserves_bytes(
    table: Map<SSAValue, PrmtEntry>,
    blocks: Seq<Seq<Instr>>,
    env: spec_fn(SSAValue) -> u32,
)
    requires
        producers_hold(table, env),
        forall|b: int, k: int|
            0 <= b < blocks.len() && 0 <= k < blocks[b].len() ==> defines_hold(
                #[trigger] blocks[b][k],
                env,
            ),
    ensures
        ({
            let (out, t) = pass_blocks(table, blocks);
            &&& out.len() == blocks.len()
            &&& producers_hold(t, env)
            &&& forall|b: int| 0 <= b < blocks.len() ==> (#[trigger] out[b]).len() == blocks[b].len()
            &&& forall|b: int, k: int|
                0 <= b < blocks.len() && 0 <= k < blocks[b].len() ==> same_bytes(
                    #[trigger] out[b][k],
                    blocks[b][k],
                    env,
                )
        }),
    decreases blocks.len(),
{
    if blocks.len() > 0 {
        let prefix = blocks.drop_last();
        assert forall|b: int, k: int| 0 <= b < prefix.len() && 0 <= k < prefix[b].len() implies defines_hold(
            #[trigger] prefix[b][k],
            env,
        ) by {
            assert(prefix[b] == blocks[b]);
        }
        lemma_pass_preserves_bytes(table, prefix, env);
        let (done, t) = pass_blocks(table, prefix);
        let last = blocks.last();
        assert forall|k: int| 0 <= k < last.len() implies defines_hold(#[trigger] last[k], env) by {
            assert(blocks[blocks.len() - 1][k] == last[k]);
        }
        lemma_pass_instrs_preserves_bytes(t, last, env);
        let (out, t2) = pass_blocks(table, blocks);
        assert forall|b: int, k: int|
            0 <= b < blocks.len() && 0 <= k < blocks[b].len() implies same_bytes(
            #[trigger] out[b][k],
            blocks[b][k],
            env,
        ) by {
            if b < prefix.len() {
                assert(out[b] == done[b]);
                assert(prefix[b] == blocks[b]);
            }
        }
    }
}

/// Whether `src` is a recorded producer of `table`.
pub open spec fn is_recorded(table: Map<SSAValue, PrmtEntry>, src: Src) -> bool {
    match src {
        Src::SSA(v) => table.contains_key(v),
        _ => false,
    }
}

/// A permute that reads no recorded producer is left as it is: where one
/// run of the pass leaves a permute with no recorded producer among its
/// sources, running it again changes nothing there.
pub proof fn lemma_optimized_keeps_unrecorded(table: Map<SSAValue, PrmtEntry>, op: OpPrmt)
    requires
        !is_recorded(table, op.srcs[0]),
        !is_recorded(table, op.srcs[1]),
    ensures
        optimized(table, op) == op,
{
    let n = table.len();
    assert(fold_slot(table, op, 0, n) == op);
    assert(fold_slot(table, op, 1, n) == op);
}

/// `a` is `b` after the pass may have rewritten it: a permute keeps its
/// destination and mode, and only an index-mode permute may get new sources
/// and a new selector; any other instruction stays as it was.
pub open spec fn same_shape(a: Instr, b: Instr) -> bool {
    match (a.op, b.op) {
        (Op::Prmt(x), Op::Prmt(y)) => x.dst == y.dst && x.mode == y.mode && (!(y.mode is Index)
            ==> x == y),
        _ => a == b,
    }
}

/// The blocks `after` hold as many instructions as `before`, each of the
/// same shape.
pub open spec fn keeps_shape(before: Seq<Seq<Instr>>, after: Seq<Seq<Instr>>) -> bool {
    &&& after.len() == before.len()
    &&& forall|b: int| 0 <= b < before.len() ==> (#[trigger] after[b]).len() == before[b].len()
    &&& forall|b: int, k: int|
        0 <= b < before.len() && 0 <= k < before[b].len() ==> same_shape(
            #[trigger] after[b][k],
            before[b][k],
        )
}

/// Over a block, the pass deletes and inserts nothing, and rewrites only the
/// sources and selectors of index-mode permutes.
pub proof fn lemma_pass_instrs_keeps_shape(table: Map<SSAValue, PrmtEntry>, instrs: Seq<Instr>)
    ensures
        ({
            let out = pass_instrs(table, instrs).0;
            &&& out.len() == instrs.len()
            &&& forall|k: int| 0 <= k < instrs.len() ==> same_shape(#[trigger] out[k], instrs[k])
        }),
    decreases instrs.len(),
{
    if instrs.len() > 0 {
        let prefix = instrs.drop_last();
        lemma_pass_instrs_keeps_shape(table, prefix);
        let (done, t) = pass_instrs(table, prefix);
        let out = pass_instrs(table, instrs).0;
        if let Op::Prmt(op) = instrs.last().op {
            let n = t.len();
            lemma_fold_keeps_dst_mode(t, op, 0, n);
            lemma_fold_keeps_dst_mode(t, fold_slot(t, op, 0, n), 1, n);
        }
        assert forall|k: int| 0 <= k < instrs.len() implies same_shape(#[trigger] out[k], instrs[k]) by {
            if k < prefix.len() {
                assert(out[k] == done[k]);
                assert(prefix[k] == instrs[k]);
            }
        }
    }
}

/// Over the blocks of a function, the pass deletes and inserts nothing, and
/// rewrites only the sources and selectors of index-mode permutes.
pub proof fn lemma_pass_keeps_shape(table: Map<SSAValue, PrmtEntry>, blocks: Seq<Seq<Instr>>)
    ensures
        keeps_shape(blocks, pass_blocks(table, blocks).0),
    decreases blocks.len(),
{
    if blocks.len() > 0 {
        let prefix = blocks.drop_last();
        lemma_pass_keeps_shape(table, prefix);
        let (done, t) = pass_blocks(table, prefix);
        lemma_pass_instrs_keeps_shape(t, blocks.last());
        let out = pass_blocks(table, blocks).0;
        assert forall|b: int, k: int| 0 <= b < blocks.len() && 0 <= k < blocks[b].len() implies same_shape(
            #[trigger] out[b][k],
            blocks[b][k],
        ) by {
            if b < prefix.len() {
                assert(out[b] == done[b]);
                assert(prefix[b] == blocks[b]);
            }
        }
        assert forall|b: int| 0 <= b < blocks.len() implies (#[trigger] out[b]).len()
            == blocks[b].len() by {
            if b < prefix.len() {
                assert(out[b] == done[b]);
                assert(prefix[b] == blocks[b]);
            }
        }
    }
}

/// A ranking of the recorded producers under which each reads only
/// recorded producers of lower rank: the table has no cycle.
pub open spec fn ranked(table: Map<SSAValue, PrmtEntry>, rank: spec_fn(SSAValue) -> nat) -> bool {
    forall|v: SSAValue, j: int|
        table.contains_key(v) && 0 <= j < 2 && #[trigger] is_recorded(table, table[v].srcs[j])
            ==> rank(table[v].srcs[j]->SSA_0) < rank(v)
}

proof fn lemma_fold_settles(
    table: Map<SSAValue, PrmtEntry>,
    rank: spec_fn(SSAValue) -> nat,
    op: OpPrmt,
    s: int,
    fuel: nat,
)
    requires
        0 <= s < 2,
        ranked(table, rank),
        is_recorded(table, op.srcs[s]) ==> rank(op.srcs[s]->SSA_0) < fuel,
    ensures
        fold_slot(table, fold_slot(table, op, s, fuel), s, 1) == fold_slot(table, op, s, fuel),
    decreases fuel,
{
    if fuel > 0 {
        if let Src::SSA(v) = op.srcs[s] {
            if table.contains_key(v) {
                if let Some(new) = fused(op, s, table[v]) {
                    let (sel, t, replace) = lemma_fused_shape(op, s, table[v]);
                    if is_recorded(table, new.srcs[s]) {
                        assert(new.srcs[s] == table[v].srcs[1 - t]);
                        assert(is_recorded(table, table[v].srcs[1 - t]));
                    }
                    lemma_fold_settles(table, rank, new, s, (fuel - 1) as nat);
                }
            }
        }
    }
}

/// On a table without cycles whose ranks stay below its size, as the
/// positions of the producers in program order give them, folding a slot
/// as many times as the table has entries leaves nothing more to fold
/// there: one more fold changes nothing.
pub proof fn lemma_fold_bound_suffices(
    table: Map<SSAValue, PrmtEntry>,
    rank: spec_fn(SSAValue) -> nat,
    op: OpPrmt,
    s: int,
)
    requires
        0 <= s < 2,
        ranked(table, rank),
        forall|v: SSAValue| table.contains_key(v) ==> #[trigger] rank(v) < table.len(),
    ensures
        ({
            let r = fold_slot(table, op, s, table.len());
            fold_slot(table, r, s, 1) == r
        }),
{
    lemma_fold_settles(table, rank, op, s, table.len());
}

} // verus!
