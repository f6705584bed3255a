//! One named routine under construction: its local constants, its code, and
//! the deferred patches ("post-ops") recorded for instructions whose operand
//! is not known until the final layout exists.

use vstd::prelude::*;

use crate::raw;
use crate::raw::{le_bytes, le_bytes64};
use crate::reg::{is_64_bit, reg_enc, wide_bit, Reg};

verus! {

/// The word of the no-op instruction, emitted as a placeholder wherever a
/// deferred patch reserves an instruction slot.
pub const NOP_WORD: u32 = 0xD503201F;

/// The word of the return instruction.
pub const RET_WORD: u32 = 0xD65F03C0;

/// A deferred instruction patch, recorded at emission time and applied once
/// every address is fixed.
pub enum Op {
    /// A branch to the entry of the routine named `label`.
    Branch { insn_offset: usize, label: String },
    /// A branch-with-link to the entry of the routine named `label`.
    BranchWithLink { insn_offset: usize, label: String },
    /// A load of the routine-local constant with index `const_offset`
    /// (in 32-bit units) into `dst_reg`.
    LoadConst { insn_offset: usize, dst_reg: Reg, const_offset: usize },
    /// A load of the global-pool constant with index `const_offset`
    /// (in 32-bit units) into `dst_reg`.
    LoadGlobalConst { insn_offset: usize, dst_reg: Reg, const_offset: usize },
}

/// The mathematical model of a deferred patch.
pub ghost enum OpV {
    Branch { insn_offset: int, label: Seq<char> },
    BranchWithLink { insn_offset: int, label: Seq<char> },
    LoadConst { insn_offset: int, dst_reg: Reg, const_offset: int },
    LoadGlobalConst { insn_offset: int, dst_reg: Reg, const_offset: int },
}

impl View for Op {
    type V = OpV;

    open spec fn view(&self) -> OpV {
        match self {
            Op::Branch { insn_offset, label } => OpV::Branch {
                insn_offset: *insn_offset as int,
                label: label@,
            },
            Op::BranchWithLink { insn_offset, label } => OpV::BranchWithLink {
                insn_offset: *insn_offset as int,
                label: label@,
            },
            Op::LoadConst { insn_offset, dst_reg, const_offset } => OpV::LoadConst {
                insn_offset: *insn_offset as int,
                dst_reg: *dst_reg,
                const_offset: *const_offset as int,
            },
            Op::LoadGlobalConst { insn_offset, dst_reg, const_offset } => OpV::LoadGlobalConst {
                insn_offset: *insn_offset as int,
                dst_reg: *dst_reg,
                const_offset: *const_offset as int,
            },
        }
    }
}

/// The byte offset, within the owning routine's code, of the placeholder
/// instruction this patch will overwrite.
pub open spec fn op_offset(op: OpV) -> int {
    match op {
        OpV::Branch { insn_offset, .. } => insn_offset,
        OpV::BranchWithLink { insn_offset, .. } => insn_offset,
        OpV::LoadConst { insn_offset, .. } => insn_offset,
        OpV::LoadGlobalConst { insn_offset, .. } => insn_offset,
    }
}

/// The label a deferred branch targets (the empty sequence for the other
/// patch kinds, which target no label).
pub open spec fn op_label(op: OpV) -> Seq<char> {
    match op {
        OpV::Branch { label, .. } => label,
        OpV::BranchWithLink { label, .. } => label,
        OpV::LoadConst { .. } => Seq::empty(),
        OpV::LoadGlobalConst { .. } => Seq::empty(),
    }
}

/// The constant index a deferred load targets, in 32-bit units (zero for the
/// branch kinds, which target no constant).
pub open spec fn op_const_index(op: OpV) -> int {
    match op {
        OpV::Branch { .. } => 0,
        OpV::BranchWithLink { .. } => 0,
        OpV::LoadConst { const_offset, .. } => const_offset,
        OpV::LoadGlobalConst { const_offset, .. } => const_offset,
    }
}

/// The patch names a placeholder instruction that lies wholly inside code of
/// length `code_len`, on an instruction boundary.
pub open spec fn op_in_code(op: OpV, code_len: int) -> bool {
    &&& 0 <= op_offset(op)
    &&& op_offset(op) % 4 == 0
    &&& op_offset(op) + 4 <= code_len
}

/// The mathematical model of a routine: a name, the local constant bytes,
/// the code bytes, and the deferred patches in emission order.
pub ghost struct RoutineV {
    pub name: Seq<char>,
    pub constants: Seq<u8>,
    pub code: Seq<u8>,
    pub post_ops: Seq<OpV>,
}

impl RoutineV {
    /// Constants and code stay whole multiples of the instruction width, and
    /// the recorded patches name disjoint, in-bounds placeholder slots in
    /// emission order.
    pub open spec fn wf(self) -> bool {
        &&& self.constants.len() % 4 == 0
        &&& self.code.len() % 4 == 0
        &&& forall|j: int|
            0 <= j < self.post_ops.len() ==> op_in_code(
                #[trigger] self.post_ops[j],
                self.code.len() as int,
            )
        &&& forall|j1: int, j2: int|
            0 <= j1 < j2 < self.post_ops.len() ==> op_offset(#[trigger] self.post_ops[j1]) + 4
                <= op_offset(#[trigger] self.post_ops[j2])
    }

    /// The number of bytes this routine contributes to the final image.
    pub open spec fn size(self) -> int {
        self.constants.len() + self.code.len() as int
    }
}

/// One named subroutine being built: local constants, code, and pending
/// deferred patches.
pub struct Routine {
    pub name: String,
    pub constants: Vec<u8>,
    pub code: Vec<u8>,
    pub post_ops: Vec<Op>,
}

impl View for Routine {
    type V = RoutineV;

    open spec fn view(&self) -> RoutineV {
        RoutineV {
            name: self.name@,
            constants: self.constants@,
            code: self.code@,
            post_ops: Seq::new(self.post_ops@.len(), |i: int| self.post_ops@[i]@),
        }
    }
}

/// `post` is `pre` with one fully encoded instruction word appended.
pub open spec fn emits(pre: RoutineV, post: RoutineV, w: u32) -> bool {
    post == RoutineV { code: pre.code + le_bytes(w), ..pre }
}

/// `post` is `pre` with a placeholder no-op appended and the patch `op`
/// recorded for it; `op`'s offset is the first byte of that placeholder.
pub open spec fn defers(pre: RoutineV, post: RoutineV, op: OpV) -> bool {
    &&& post == RoutineV {
        code: pre.code + le_bytes(NOP_WORD),
        post_ops: pre.post_ops.push(op),
        ..pre
    }
    &&& op_offset(op) == pre.code.len()
}

/// Appending an instruction word preserves well-formedness.
pub proof fn lemma_wf_after_emit(pre: RoutineV, post: RoutineV, w: u32)
    requires
        pre.wf(),
        emits(pre, post, w),
    ensures
        post.wf(),
{
    assert(post.code.len() == pre.code.len() + 4);
}

/// Recording a patch for a fresh placeholder preserves well-formedness.
pub proof fn lemma_wf_after_defer(pre: RoutineV, post: RoutineV, op: OpV)
    requires
        pre.wf(),
        defers(pre, post, op),
    ensures
        post.wf(),
{
    assert(post.code.len() == pre.code.len() + 4);
    assert forall|j1: int, j2: int| 0 <= j1 < j2 < post.post_ops.len() implies op_offset(
        #[trigger] post.post_ops[j1],
    ) + 4 <= op_offset(#[trigger] post.post_ops[j2]) by {
        if j2 < pre.post_ops.len() as int {
        } else {
            assert(op_in_code(pre.post_ops[j1], pre.code.len() as int));
        }
    }
}

impl Routine {
    /// A new, empty routine whose entry will be published under `name`.
    pub fn new(name: String) -> (r: Routine)
        ensures
            r@ == (RoutineV {
                name: name@,
                constants: Seq::<u8>::empty(),
                code: Seq::<u8>::empty(),
                post_ops: Seq::<OpV>::empty(),
            }),
            r@.wf(),
    {
        let r = Routine { name, constants: Vec::new(), code: Vec::new(), post_ops: Vec::new() };
        proof {
            assert(r@.post_ops =~= Seq::<OpV>::empty());
        }
        r
    }

    /// Appends the four bytes of one instruction word to the code.
    fn int_insn(&mut self, value: u32)
        ensures
            final(self)@ == (RoutineV { code: old(self)@.code + le_bytes(value), ..old(self)@ }),
    {
        raw::push_u32_le(&mut self.code, value);
    }

    /// Appends a four-byte placeholder and returns the byte offset of its
    /// first byte within the code.
    fn alloc_insn(&mut self) -> (start: usize)
        ensures
            final(self)@ == (RoutineV { code: old(self)@.code + le_bytes(0), ..old(self)@ }),
            start == old(self)@.code.len(),
    {
        let start = self.code.len();
        raw::push_u32_le(&mut self.code, 0);
        start
    }

    /// The routine-local constant bytes emitted so far.
    pub fn constants(&self) -> (r: &Vec<u8>)
        ensures
            r@ == self@.constants,
    {
        &self.constants
    }

    /// The code bytes emitted so far, placeholders included.
    pub fn code(&self) -> (r: &Vec<u8>)
        ensures
            r@ == self@.code,
    {
        &self.code
    }

    /// Returns from a routine.
    pub fn ret(&mut self)
        requires
            old(self)@.wf(),
        ensures
            final(self)@.wf(),
            emits(old(self)@, final(self)@, RET_WORD),
    {
        self.int_insn(RET_WORD);
        proof {
            lemma_wf_after_emit(old(self)@, self@, RET_WORD);
        }
    }

    /// Emits a no-op.
    pub fn nop(&mut self)
        requires
            old(self)@.wf(),
        ensures
            final(self)@.wf(),
            emits(old(self)@, final(self)@, NOP_WORD),
    {
        self.int_insn(NOP_WORD);
        proof {
            lemma_wf_after_emit(old(self)@, self@, NOP_WORD);
        }
    }

    /// Stores a 32-bit constant in front of the code; returns the constant's
    /// index, counted in 32-bit units.
    pub fn const_32(&mut self, value: u32) -> (index: usize)
        requires
            old(self)@.wf(),
        ensures
            final(self)@.wf(),
            final(self)@ == (RoutineV {
                constants: old(self)@.constants + le_bytes(value),
                ..old(self)@
            }),
            4 * index == old(self)@.constants.len(),
    {
        let index = self.constants.len() / 4;
        raw::push_u32_le(&mut self.constants, value);
        index
    }

    /// Stores a 64-bit constant in front of the code; returns the constant's
    /// index, counted in 32-bit units.
    pub fn const_64(&mut self, value: u64) -> (index: usize)
        requires
            old(self)@.wf(),
        ensures
            final(self)@.wf(),
            final(self)@ == (RoutineV {
                constants: old(self)@.constants + le_bytes64(value),
                ..old(self)@
            }),
            4 * index == old(self)@.constants.len(),
    {
        let index = self.constants.len() / 4;
        raw::push_u64_le(&mut self.constants, value);
        index
    }

    /// Moves the 16-bit integer into the destination register.
    pub fn mov_imm16(&mut self, dst_reg: Reg, imm: u16)
        requires
            old(self)@.wf(),
        ensures
            final(self)@.wf(),
            emits(old(self)@, final(self)@, raw::mov_imm16_word(dst_reg, imm as int)),
    {
        let wide: u32 = if is_64_bit(dst_reg) {
            0x80000000
        } else {
            0
        };
        self.int_insn(0x52800000 + wide + (imm as u32) * 0x20 + dst_reg.enc());
        proof {
            lemma_wf_after_emit(old(self)@, self@, raw::mov_imm16_word(dst_reg, imm as int));
        }
    }

    /// Moves the value stored in the source register into the destination
    /// register; both registers must be of the same width class.
    pub fn mov_reg(&mut self, dst_reg: Reg, src_reg: Reg)
        requires
            old(self)@.wf(),
            dst_reg.wide == src_reg.wide,
        ensures
            final(self)@.wf(),
            emits(old(self)@, final(self)@, raw::mov_reg_word(dst_reg, src_reg)),
    {
        let wide: u32 = if is_64_bit(dst_reg) {
            0x80000000
        } else {
            0
        };
        self.int_insn(0x2A0003E0 + wide + src_reg.enc() * 0x10000 + dst_reg.enc());
        proof {
            lemma_wf_after_emit(old(self)@, self@, raw::mov_reg_word(dst_reg, src_reg));
        }
    }

    /// Branches to a 26-bit displacement relative to this instruction,
    /// counted in instruction words.
    pub fn br_rel(&mut self, rel26: i32)
        requires
            old(self)@.wf(),
            raw::in_branch_range(rel26 as int),
        ensures
            final(self)@.wf(),
            emits(old(self)@, final(self)@, raw::branch_word(false, rel26 as int)),
    {
        let field: u32 = if rel26 >= 0 {
            rel26 as u32
        } else {
            (rel26 + 0x4000000) as u32
        };
        self.int_insn(0x14000000 + field);
        proof {
            lemma_wf_after_emit(old(self)@, self@, raw::branch_word(false, rel26 as int));
        }
    }

    /// Branches to the absolute address stored in a register.
    pub fn br_reg(&mut self, dst_reg: Reg)
        requires
            old(self)@.wf(),
            dst_reg.wide,
        ensures
            final(self)@.wf(),
            emits(old(self)@, final(self)@, raw::br_reg_word(dst_reg)),
    {
        let start = self.alloc_insn();
        raw::br_reg(&mut self.code, start, dst_reg);
        proof {
            raw::lemma_patch4_append(old(self)@.code, 0, raw::br_reg_word(dst_reg));
            lemma_wf_after_emit(old(self)@, self@, raw::br_reg_word(dst_reg));
        }
    }

    /// Branches to a 26-bit displacement relative to this instruction,
    /// counted in instruction words, storing the return address.
    pub fn br_rel_link(&mut self, rel26: i32)
        requires
            old(self)@.wf(),
            raw::in_branch_range(rel26 as int),
        ensures
            final(self)@.wf(),
            emits(old(self)@, final(self)@, raw::branch_word(true, rel26 as int)),
    {
        let field: u32 = if rel26 >= 0 {
            rel26 as u32
        } else {
            (rel26 + 0x4000000) as u32
        };
        self.int_insn(0x94000000 + field);
        proof {
            lemma_wf_after_emit(old(self)@, self@, raw::branch_word(true, rel26 as int));
        }
    }

    /// Branches to the absolute address stored in a register, storing the
    /// return address.
    pub fn br_reg_link(&mut self, dst_reg: Reg)
        requires
            old(self)@.wf(),
            dst_reg.wide,
        ensures
            final(self)@.wf(),
            emits(old(self)@, final(self)@, raw::br_reg_link_word(dst_reg)),
    {
        let start = self.alloc_insn();
        raw::br_reg_link(&mut self.code, start, dst_reg);
        proof {
            raw::lemma_patch4_append(old(self)@.code, 0, raw::br_reg_link_word(dst_reg));
            lemma_wf_after_emit(old(self)@, self@, raw::br_reg_link_word(dst_reg));
        }
    }

    /// Subtracts the 12-bit immediate from the value in `lhs` and puts the
    /// result into the destination register; both registers must be of the
    /// same width class.
    pub fn sub_imm12(&mut self, dst_reg: Reg, lhs: Reg, imm12: u16)
        requires
            old(self)@.wf(),
            dst_reg.wide == lhs.wide,
            imm12 < 0x1000,
        ensures
            final(self)@.wf(),
            emits(old(self)@, final(self)@, raw::sub_imm12_word(dst_reg, lhs, imm12 as int)),
    {
        let wide: u32 = if is_64_bit(dst_reg) {
            0x80000000
        } else {
            0
        };
        self.int_insn(0x51000000 + wide + (imm12 as u32) * 0x400 + lhs.enc() * 0x20 + dst_reg.enc());
        proof {
            lemma_wf_after_emit(old(self)@, self@, raw::sub_imm12_word(dst_reg, lhs, imm12 as int));
        }
    }

    /// Adds the 12-bit immediate to the value in `lhs` and puts the result
    /// into the destination register; both registers must be of the same
    /// width class.
    pub fn add_imm12(&mut self, dst_reg: Reg, lhs: Reg, imm12: u16)
        requires
            old(self)@.wf(),
            dst_reg.wide == lhs.wide,
            imm12 < 0x1000,
        ensures
            final(self)@.wf(),
            emits(old(self)@, final(self)@, raw::add_imm12_word(dst_reg, lhs, imm12 as int)),
    {
        let wide: u32 = if is_64_bit(dst_reg) {
            0x80000000
        } else {
            0
        };
        self.int_insn(0x11000000 + wide + (imm12 as u32) * 0x400 + lhs.enc() * 0x20 + dst_reg.enc());
        proof {
            lemma_wf_after_emit(old(self)@, self@, raw::add_imm12_word(dst_reg, lhs, imm12 as int));
        }
    }

    /// Stores the value of `src_reg` at `dst_reg + imm12` (unsigned, scaled
    /// by the access size); the address register must be 64-bit.
    pub fn str_uimm12_offset(&mut self, dst_reg: Reg, src_reg: Reg, imm12: u16)
        requires
            old(self)@.wf(),
            dst_reg.wide,
            imm12 < 0x1000,
        ensures
            final(self)@.wf(),
            emits(old(self)@, final(self)@, raw::str_uimm12_word(dst_reg, src_reg, imm12 as int)),
    {
        let wide: u32 = if is_64_bit(src_reg) {
            0x40000000
        } else {
            0
        };
        self.int_insn(
            0xB9000000 + wide + (imm12 as u32) * 0x400 + dst_reg.enc() * 0x20 + src_reg.enc(),
        );
        proof {
            lemma_wf_after_emit(
                old(self)@,
                self@,
                raw::str_uimm12_word(dst_reg, src_reg, imm12 as int),
            );
        }
    }

    /// Stores the value of `src_reg` at `dst_reg + imm9` (signed) and adds
    /// `imm9` to `dst_reg` first; the address register must be 64-bit.
    pub fn str_imm9_pre_offset(&mut self, dst_reg: Reg, src_reg: Reg, imm9: i16)
        requires
            old(self)@.wf(),
            dst_reg.wide,
            -0x100 <= imm9 <= 0xFF,
        ensures
            final(self)@.wf(),
            emits(old(self)@, final(self)@, raw::str_imm9_pre_word(dst_reg, src_reg, imm9 as int)),
    {
        let w = raw::str_imm9_pre_offset(dst_reg, src_reg, imm9);
        self.int_insn(w);
        proof {
            lemma_wf_after_emit(old(self)@, self@, w);
        }
    }

    /// Loads the value at `src_reg + imm12` (unsigned, scaled by the access
    /// size) into `dst_reg`; the address register must be 64-bit.
    pub fn ldr_uimm12_offset(&mut self, dst_reg: Reg, src_reg: Reg, imm12: u16)
        requires
            old(self)@.wf(),
            src_reg.wide,
            imm12 < 0x1000,
        ensures
            final(self)@.wf(),
            emits(old(self)@, final(self)@, raw::ldr_uimm12_word(dst_reg, src_reg, imm12 as int)),
    {
        let wide: u32 = if is_64_bit(src_reg) {
            0x40000000
        } else {
            0
        };
        self.int_insn(
            0xB9400000 + wide + (imm12 as u32) * 0x400 + src_reg.enc() * 0x20 + dst_reg.enc(),
        );
        proof {
            lemma_wf_after_emit(
                old(self)@,
                self@,
                raw::ldr_uimm12_word(dst_reg, src_reg, imm12 as int),
            );
        }
    }

    /// Loads the value at `src_reg + imm9` (signed) into `dst_reg` and adds
    /// `imm9` to `src_reg` afterwards; the destination must be 64-bit.
    pub fn ldr_uimm9_post_offset(&mut self, dst_reg: Reg, src_reg: Reg, imm9: i16)
        requires
            old(self)@.wf(),
            dst_reg.wide,
            -0x100 <= imm9 <= 0xFF,
        ensures
            final(self)@.wf(),
            emits(old(self)@, final(self)@, raw::ldr_imm9_post_word(dst_reg, src_reg, imm9 as int)),
    {
        let w = raw::ldr_imm9_post_offset(dst_reg, src_reg, imm9);
        self.int_insn(w);
        proof {
            lemma_wf_after_emit(old(self)@, self@, w);
        }
    }

    /// Loads the value at the 19-bit displacement `rel19`, counted in
    /// instruction words relative to this instruction, into `dst_reg`.
    pub fn ldr_rel19(&mut self, dst_reg: Reg, rel19: i32)
        requires
            old(self)@.wf(),
            raw::in_load_range(rel19 as int),
        ensures
            final(self)@.wf(),
            emits(old(self)@, final(self)@, raw::ldr_lit_word(dst_reg, rel19 as int)),
    {
        let wide: u32 = if is_64_bit(dst_reg) {
            0x40000000
        } else {
            0
        };
        let field: u32 = if rel19 >= 0 {
            rel19 as u32
        } else {
            (rel19 + 0x80000) as u32
        };
        self.int_insn(0x18000000 + wide + field * 0x20 + dst_reg.enc());
        proof {
            lemma_wf_after_emit(old(self)@, self@, raw::ldr_lit_word(dst_reg, rel19 as int));
        }
    }

    /// Branches to a label that must name a pushed routine by the time the
    /// assembler finalizes; records the patch and reserves the slot.
    pub fn br(&mut self, label: String)
        requires
            old(self)@.wf(),
        ensures
            final(self)@.wf(),
            defers(
                old(self)@,
                final(self)@,
                OpV::Branch { insn_offset: old(self)@.code.len() as int, label: label@ },
            ),
    {
        let ghost op = OpV::Branch { insn_offset: self@.code.len() as int, label: label@ };
        self.post_ops.push(Op::Branch { insn_offset: self.code.len(), label });
        self.int_insn(NOP_WORD);
        proof {
            assert(self@.post_ops =~= old(self)@.post_ops.push(op));
            lemma_wf_after_defer(old(self)@, self@, op);
        }
    }

    /// Branches to a label with link (storing the return address); records
    /// the patch and reserves the slot.
    pub fn br_link(&mut self, label: String)
        requires
            old(self)@.wf(),
        ensures
            final(self)@.wf(),
            defers(
                old(self)@,
                final(self)@,
                OpV::BranchWithLink { insn_offset: old(self)@.code.len() as int, label: label@ },
            ),
    {
        let ghost op = OpV::BranchWithLink { insn_offset: self@.code.len() as int, label: label@ };
        self.post_ops.push(Op::BranchWithLink { insn_offset: self.code.len(), label });
        self.int_insn(NOP_WORD);
        proof {
            assert(self@.post_ops =~= old(self)@.post_ops.push(op));
            lemma_wf_after_defer(old(self)@, self@, op);
        }
    }

    /// Loads the routine-local constant with index `offset` (in 32-bit
    /// units); records the patch and reserves the slot.
    pub fn ldr_const(&mut self, dst_reg: Reg, offset: usize)
        requires
            old(self)@.wf(),
        ensures
            final(self)@.wf(),
            defers(
                old(self)@,
                final(self)@,
                OpV::LoadConst {
                    insn_offset: old(self)@.code.len() as int,
                    dst_reg,
                    const_offset: offset as int,
                },
            ),
    {
        let ghost op = OpV::LoadConst {
            insn_offset: self@.code.len() as int,
            dst_reg,
            const_offset: offset as int,
        };
        self.post_ops.push(Op::LoadConst {
            insn_offset: self.code.len(),
            dst_reg,
            const_offset: offset,
        });
        self.int_insn(NOP_WORD);
        proof {
            assert(self@.post_ops =~= old(self)@.post_ops.push(op));
            lemma_wf_after_defer(old(self)@, self@, op);
        }
    }

    /// Loads the global-pool constant with index `offset` (in 32-bit units);
    /// records the patch and reserves the slot.
    pub fn ldr_global_const(&mut self, dst_reg: Reg, offset: usize)
        requires
            old(self)@.wf(),
        ensures
            final(self)@.wf(),
            defers(
                old(self)@,
                final(self)@,
                OpV::LoadGlobalConst {
                    insn_offset: old(self)@.code.len() as int,
                    dst_reg,
                    const_offset: offset as int,
                },
            ),
    {
        let ghost op = OpV::LoadGlobalConst {
            insn_offset: self@.code.len() as int,
            dst_reg,
            const_offset: offset as int,
        };
        self.post_ops.push(Op::LoadGlobalConst {
            insn_offset: self.code.len(),
            dst_reg,
            const_offset: offset,
        });
        self.int_insn(NOP_WORD);
        proof {
            assert(self@.post_ops =~= old(self)@.post_ops.push(op));
            lemma_wf_after_defer(old(self)@, self@, op);
        }
    }
}

} // verus!
