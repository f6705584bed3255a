//! Instruction-word encodings and the byte-level view of the emitted code.
//!
//! Every instruction of the target is one 32-bit word, stored as four bytes
//! in little-endian order (the byte order of the instruction stream).  The
//! spec functions here define those words arithmetically: each bit field of
//! a word is a summand `field * 2^shift`, so contracts about encodings stay
//! in plain integer arithmetic.

use vstd::prelude::*;

use crate::assembler::Asm;
use vstd::pervasive::unreached;
use crate::reg::{is_64_bit, reg_enc, wide_bit, Reg};

verus! {

/// The four bytes of a 32-bit word in little-endian order.
pub open spec fn le_bytes(w: u32) -> Seq<u8> {
    seq![
        (w % 0x100) as u8,
        ((w / 0x100) % 0x100) as u8,
        ((w / 0x10000) % 0x100) as u8,
        ((w / 0x1000000) % 0x100) as u8,
    ]
}

/// The eight bytes of a 64-bit word in little-endian order.
pub open spec fn le_bytes64(w: u64) -> Seq<u8> {
    seq![
        (w % 0x100) as u8,
        ((w / 0x100) % 0x100) as u8,
        ((w / 0x10000) % 0x100) as u8,
        ((w / 0x1000000) % 0x100) as u8,
        ((w / 0x100000000) % 0x100) as u8,
        ((w / 0x10000000000) % 0x100) as u8,
        ((w / 0x1000000000000) % 0x100) as u8,
        ((w / 0x100000000000000) % 0x100) as u8,
    ]
}

/// The 32-bit word stored little-endian at byte position `pos`.
pub open spec fn u32_at(bytes: Seq<u8>, pos: int) -> int {
    bytes[pos] + 0x100 * bytes[pos + 1] + 0x10000 * bytes[pos + 2] + 0x1000000 * bytes[pos + 3]
}

/// `img` with the four bytes at `pos` replaced by the little-endian bytes of `w`.
pub open spec fn patch4(img: Seq<u8>, pos: int, w: u32) -> Seq<u8> {
    img.update(pos, le_bytes(w)[0]).update(pos + 1, le_bytes(w)[1]).update(
        pos + 2,
        le_bytes(w)[2],
    ).update(pos + 3, le_bytes(w)[3])
}

/// Patching four in-bounds bytes keeps the image length.
pub proof fn lemma_patch4_len(img: Seq<u8>, pos: int, w: u32)
    requires
        0 <= pos,
        pos + 4 <= img.len(),
    ensures
        patch4(img, pos, w).len() == img.len(),
{
}

/// Patching leaves every byte outside `pos .. pos + 4` unchanged.
pub proof fn lemma_patch4_outside(img: Seq<u8>, pos: int, w: u32, p: int)
    requires
        0 <= pos,
        pos + 4 <= img.len(),
        0 <= p < img.len(),
        !(pos <= p < pos + 4),
    ensures
        patch4(img, pos, w)[p] == img[p],
        patch4(img, pos, w).len() == img.len(),
{
}

/// A displacement representable in a signed 26-bit branch field, counted in
/// instruction words.
pub open spec fn in_branch_range(rel: int) -> bool {
    -0x2000000 <= rel <= 0x1FFFFFF
}

/// A displacement representable in a signed 19-bit literal-load field,
/// counted in instruction words.
pub open spec fn in_load_range(rel: int) -> bool {
    -0x40000 <= rel <= 0x3FFFF
}

/// The 26-bit two's-complement field for an in-range displacement.
pub open spec fn field26(rel: int) -> int {
    if rel >= 0 {
        rel
    } else {
        rel + 0x4000000
    }
}

/// The displacement denoted by a 26-bit two's-complement field.
pub open spec fn decode26(f: int) -> int {
    if f >= 0x2000000 {
        f - 0x4000000
    } else {
        f
    }
}

/// The 19-bit two's-complement field for an in-range displacement.
pub open spec fn field19(rel: int) -> int {
    if rel >= 0 {
        rel
    } else {
        rel + 0x80000
    }
}

/// The displacement denoted by a 19-bit two's-complement field.
pub open spec fn decode19(f: int) -> int {
    if f >= 0x40000 {
        f - 0x80000
    } else {
        f
    }
}

/// The 9-bit two's-complement field for an immediate in `-0x100 ..= 0xFF`.
pub open spec fn field9(imm: int) -> int {
    if imm >= 0 {
        imm
    } else {
        imm + 0x200
    }
}

/// Decoding inverts encoding on every in-range branch displacement.
pub proof fn lemma_branch_field_round_trip(rel: int)
    requires
        in_branch_range(rel),
    ensures
        decode26(field26(rel)) == rel,
        0 <= field26(rel) < 0x4000000,
{
}

/// Decoding inverts encoding on every in-range load displacement.
pub proof fn lemma_load_field_round_trip(rel: int)
    requires
        in_load_range(rel),
    ensures
        decode19(field19(rel)) == rel,
        0 <= field19(rel) < 0x80000,
{
}

/// An unconditional PC-relative branch (plain, or with link when `link` is
/// set, which additionally stores the return address).
pub open spec fn branch_word(link: bool, rel: int) -> u32 {
    ((if link {
        0x94000000int
    } else {
        0x14000000int
    }) + field26(rel)) as u32
}

/// A PC-relative literal load into `dst`.
pub open spec fn ldr_lit_word(dst: Reg, rel: int) -> u32 {
    (0x18000000 + wide_bit(dst) * 0x40000000 + field19(rel) * 0x20 + reg_enc(dst)) as u32
}

/// A branch to the absolute address held in `dst`.
pub open spec fn br_reg_word(dst: Reg) -> u32 {
    (0xD61F0000 + reg_enc(dst) * 0x20) as u32
}

/// A branch-with-link to the absolute address held in `dst`.
pub open spec fn br_reg_link_word(dst: Reg) -> u32 {
    (0xD63F0000 + reg_enc(dst) * 0x20) as u32
}

/// A load of `[src + imm9]` into `dst` that adds `imm9` to `src` afterwards.
pub open spec fn ldr_imm9_post_word(dst: Reg, src: Reg, imm9: int) -> u32 {
    (0xB8400400 + wide_bit(src) * 0x40000000 + field9(imm9) * 0x1000 + reg_enc(dst) * 0x20 + reg_enc(
        src,
    )) as u32
}

/// A store of `src` to `[dst + imm9]` that first adds `imm9` to `dst`.
pub open spec fn str_imm9_pre_word(dst: Reg, src: Reg, imm9: int) -> u32 {
    (0xB8000C00 + wide_bit(src) * 0x40000000 + field9(imm9) * 0x1000 + reg_enc(dst) * 0x20 + reg_enc(
        src,
    )) as u32
}

/// A move of a 16-bit immediate into `dst`.
pub open spec fn mov_imm16_word(dst: Reg, imm: int) -> u32 {
    (0x52800000 + wide_bit(dst) * 0x80000000 + imm * 0x20 + reg_enc(dst)) as u32
}

/// A move of the value of `src` into `dst`.
pub open spec fn mov_reg_word(dst: Reg, src: Reg) -> u32 {
    (0x2A0003E0 + wide_bit(dst) * 0x80000000 + reg_enc(src) * 0x10000 + reg_enc(dst)) as u32
}

/// `dst = lhs - imm12`.
pub open spec fn sub_imm12_word(dst: Reg, lhs: Reg, imm12: int) -> u32 {
    (0x51000000 + wide_bit(dst) * 0x80000000 + imm12 * 0x400 + reg_enc(lhs) * 0x20 + reg_enc(
        dst,
    )) as u32
}

/// `dst = lhs + imm12`.
pub open spec fn add_imm12_word(dst: Reg, lhs: Reg, imm12: int) -> u32 {
    (0x11000000 + wide_bit(dst) * 0x80000000 + imm12 * 0x400 + reg_enc(lhs) * 0x20 + reg_enc(
        dst,
    )) as u32
}

/// A store of `src` to `[dst + imm12]`, `imm12` scaled by the access size.
pub open spec fn str_uimm12_word(dst: Reg, src: Reg, imm12: int) -> u32 {
    (0xB9000000 + wide_bit(src) * 0x40000000 + imm12 * 0x400 + reg_enc(dst) * 0x20 + reg_enc(
        src,
    )) as u32
}

/// A load of `[src + imm12]` into `dst`, `imm12` scaled by the access size.
pub open spec fn ldr_uimm12_word(dst: Reg, src: Reg, imm12: int) -> u32 {
    (0xB9400000 + wide_bit(src) * 0x40000000 + imm12 * 0x400 + reg_enc(src) * 0x20 + reg_enc(
        dst,
    )) as u32
}

/// Patching the word that starts exactly at the old end of `c`, after four
/// placeholder bytes were appended, is the same as appending the word.
pub proof fn lemma_patch4_append(c: Seq<u8>, w0: u32, w: u32)
    ensures
        patch4(c + le_bytes(w0), c.len() as int, w) == c + le_bytes(w),
{
    assert(patch4(c + le_bytes(w0), c.len() as int, w) =~= c + le_bytes(w));
}

/// The branch word resolved for the byte displacement `target - insn`, or
/// nothing when the displacement does not fit the 26-bit field.
pub open spec fn branch_resolve(link: bool, rel: int) -> Option<u32> {
    if in_branch_range(rel) {
        Some(branch_word(link, rel))
    } else {
        None
    }
}

/// The literal-load word resolved for a displacement in instruction words,
/// or nothing when it does not fit the 19-bit field.
pub open spec fn ldr_lit_resolve(dst: Reg, rel: int) -> Option<u32> {
    if in_load_range(rel) {
        Some(ldr_lit_word(dst, rel))
    } else {
        None
    }
}

/// Overwrites the four bytes at `index` with the little-endian bytes of the
/// instruction word `value`.
pub fn write_ne_32(slice: &mut Vec<u8>, index: usize, value: u32)
    requires
        index + 4 <= old(slice)@.len(),
    ensures
        final(slice)@ == patch4(old(slice)@, index as int, value),
{
    let n = slice.len();
    slice[index] = (value % 0x100) as u8;
    slice[index + 1] = ((value / 0x100) % 0x100) as u8;
    slice[index + 2] = ((value / 0x10000) % 0x100) as u8;
    slice[index + 3] = ((value / 0x1000000) % 0x100) as u8;
    assert(slice@ =~= patch4(old(slice)@, index as int, value));
}

/// Appends the little-endian bytes of a 32-bit word.
pub(crate) fn push_u32_le(bytes: &mut Vec<u8>, value: u32)
    ensures
        final(bytes)@ == old(bytes)@ + le_bytes(value),
{
    bytes.push((value % 0x100) as u8);
    bytes.push(((value / 0x100) % 0x100) as u8);
    bytes.push(((value / 0x10000) % 0x100) as u8);
    bytes.push(((value / 0x1000000) % 0x100) as u8);
    assert(bytes@ =~= old(bytes)@ + le_bytes(value));
}

/// Appends the little-endian bytes of a 64-bit word.
pub(crate) fn push_u64_le(bytes: &mut Vec<u8>, value: u64)
    ensures
        final(bytes)@ == old(bytes)@ + le_bytes64(value),
{
    bytes.push((value % 0x100) as u8);
    bytes.push(((value / 0x100) % 0x100) as u8);
    bytes.push(((value / 0x10000) % 0x100) as u8);
    bytes.push(((value / 0x1000000) % 0x100) as u8);
    bytes.push(((value / 0x100000000) % 0x100) as u8);
    bytes.push(((value / 0x10000000000) % 0x100) as u8);
    bytes.push(((value / 0x1000000000000) % 0x100) as u8);
    bytes.push(((value / 0x100000000000000) % 0x100) as u8);
    assert(bytes@ =~= old(bytes)@ + le_bytes64(value));
}

/// Computes the branch word for a branch from absolute byte address `insn`
/// to absolute byte address `target`, or reports that the displacement does
/// not fit its field.
pub(crate) fn branch_encode(link: bool, target: usize, insn: usize) -> (r: Option<u32>)
    requires
        target % 4 == insn % 4,
    ensures
        r == branch_resolve(link, (target - insn) / 4),
{
    let op: u32 = if link {
        0x94000000
    } else {
        0x14000000
    };
    if target >= insn {
        let d = (target - insn) / 4;
        if d > 0x1FFFFFF {
            None
        } else {
            Some(op + d as u32)
        }
    } else {
        let d = (insn - target) / 4;
        assert((target - insn) / 4 == -(d as int));
        if d > 0x2000000 {
            None
        } else {
            Some(op + (0x4000000 - d as u32))
        }
    }
}

/// Computes the literal-load word for a load whose target sits
/// `target_units - insn_units` instruction words away, or reports that the
/// displacement does not fit its field.
pub(crate) fn ldr_lit_encode(dst: Reg, target_units: usize, insn_units: usize) -> (r: Option<u32>)
    ensures
        r == ldr_lit_resolve(dst, target_units - insn_units),
{
    let wide: u32 = if is_64_bit(dst) {
        0x40000000
    } else {
        0
    };
    if target_units >= insn_units {
        let d = target_units - insn_units;
        if d > 0x3FFFF {
            None
        } else {
            Some(0x18000000 + wide + (d as u32) * 0x20 + dst.enc())
        }
    } else {
        let d = insn_units - target_units;
        if d > 0x40000 {
            None
        } else {
            Some(0x18000000 + wide + (0x80000 - d as u32) * 0x20 + dst.enc())
        }
    }
}

/// Writes a branch-to-register instruction at `insn_offset`.
pub fn br_reg(bytes: &mut Vec<u8>, insn_offset: usize, dst_reg: Reg)
    requires
        dst_reg.wide,
        insn_offset + 4 <= old(bytes)@.len(),
    ensures
        final(bytes)@ == patch4(old(bytes)@, insn_offset as int, br_reg_word(dst_reg)),
{
    write_ne_32(bytes, insn_offset, 0xD61F0000 + dst_reg.enc() * 0x20);
}

/// Writes a branch-to-register-with-link instruction at `insn_offset`.
pub fn br_reg_link(bytes: &mut Vec<u8>, insn_offset: usize, dst_reg: Reg)
    requires
        dst_reg.wide,
        insn_offset + 4 <= old(bytes)@.len(),
    ensures
        final(bytes)@ == patch4(old(bytes)@, insn_offset as int, br_reg_link_word(dst_reg)),
{
    write_ne_32(bytes, insn_offset, 0xD63F0000 + dst_reg.enc() * 0x20);
}

/// Writes a load of the routine-local constant with index `const_offset`
/// (counted in 32-bit units from the start of the routine) at the
/// routine-relative byte offset `insn_offset`.
pub fn load_const(bytes: &mut Vec<u8>, insn_offset: usize, dst_reg: Reg, const_offset: usize)
    requires
        insn_offset % 4 == 0,
        insn_offset + 4 <= old(bytes)@.len(),
        in_load_range(const_offset - insn_offset / 4),
    ensures
        final(bytes)@ == patch4(
            old(bytes)@,
            insn_offset as int,
            ldr_lit_word(dst_reg, const_offset - insn_offset / 4),
        ),
{
    let w = ldr_lit_encode(dst_reg, const_offset, insn_offset / 4);
    match w {
        Some(word) => write_ne_32(bytes, insn_offset, word),
        None => unreached(),
    }
}

/// Writes a load of the global constant with index `const_offset` (counted
/// in 32-bit units from the assembler's global pool base) at `insn_offset`,
/// for an instruction placed at absolute address `abs_addr + insn_offset`.
pub fn load_global_const(
    assembler: &Asm,
    abs_addr: usize,
    bytes: &mut Vec<u8>,
    insn_offset: usize,
    dst_reg: Reg,
    const_offset: usize,
)
    requires
        assembler.finalizing,
        assembler.const_addr % 4 == 0,
        (abs_addr + insn_offset) % 4 == 0,
        abs_addr + insn_offset <= usize::MAX,
        assembler.const_addr / 4 + const_offset <= usize::MAX,
        insn_offset + 4 <= old(bytes)@.len(),
        in_load_range(
            assembler.const_addr / 4 + const_offset - (abs_addr + insn_offset) / 4,
        ),
    ensures
        final(bytes)@ == patch4(
            old(bytes)@,
            insn_offset as int,
            ldr_lit_word(
                dst_reg,
                assembler.const_addr / 4 + const_offset - (abs_addr + insn_offset) / 4,
            ),
        ),
{
    let pool = match assembler.global_const_address() {
        Ok(p) => p,
        Err(_) => unreached(),
    };
    let w = ldr_lit_encode(dst_reg, pool / 4 + const_offset, (abs_addr + insn_offset) / 4);
    match w {
        Some(word) => write_ne_32(bytes, insn_offset, word),
        None => unreached(),
    }
}

/// The word for a load of `[src + imm9]` into `dst` with post-increment.
pub fn ldr_imm9_post_offset(dst_reg: Reg, src_reg: Reg, imm9: i16) -> (w: u32)
    requires
        dst_reg.wide,
        -0x100 <= imm9 <= 0xFF,
    ensures
        w == ldr_imm9_post_word(dst_reg, src_reg, imm9 as int),
{
    let field: u32 = if imm9 >= 0 {
        imm9 as u32
    } else {
        (imm9 + 0x200) as u32
    };
    let wide: u32 = if is_64_bit(src_reg) {
        0x40000000
    } else {
        0
    };
    0xB8400400 + wide + field * 0x1000 + dst_reg.enc() * 0x20 + src_reg.enc()
}

/// The word for a store of `src` to `[dst + imm9]` with pre-increment.
pub fn str_imm9_pre_offset(dst_reg: Reg, src_reg: Reg, imm9: i16) -> (w: u32)
    requires
        dst_reg.wide,
        -0x100 <= imm9 <= 0xFF,
    ensures
        w == str_imm9_pre_word(dst_reg, src_reg, imm9 as int),
{
    let field: u32 = if imm9 >= 0 {
        imm9 as u32
    } else {
        (imm9 + 0x200) as u32
    };
    let wide: u32 = if is_64_bit(src_reg) {
        0x40000000
    } else {
        0
    };
    0xB8000C00 + wide + field * 0x1000 + dst_reg.enc() * 0x20 + src_reg.enc()
}

} // verus!
