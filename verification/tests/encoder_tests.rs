use a64jit::assembler::Asm;
use a64jit::mem::align;
use a64jit::raw;
use a64jit::reg::{is_64_bit, Reg};
use a64jit::routine::Routine;

fn code_words(r: &Routine) -> Vec<u32> {
    r.code
        .chunks(4)
        .map(|c| u32::from_le_bytes([c[0], c[1], c[2], c[3]]))
        .collect()
}

#[test]
fn register_model() {
    assert!(is_64_bit(Reg::x(30)));
    assert!(!is_64_bit(Reg::w(30)));
    assert_eq!(Reg::x(17).enc(), 17);
    assert_eq!(Reg::w(0).enc(), 0);
}

#[test]
fn ret_and_nop_words() {
    let mut r = Routine::new("r".to_string());
    r.ret();
    r.nop();
    assert_eq!(code_words(&r), vec![0xD65F03C0, 0xD503201F]);
}

#[test]
fn mov_imm16_words() {
    let mut r = Routine::new("r".to_string());
    r.mov_imm16(Reg::w(0), 5);
    r.mov_imm16(Reg::x(3), 0xFFFF);
    assert_eq!(
        code_words(&r),
        vec![0x52800000 | (5 << 5), 0xD2800000 | (0xFFFF << 5) | 3]
    );
}

#[test]
fn mov_reg_word() {
    let mut r = Routine::new("r".to_string());
    r.mov_reg(Reg::x(2), Reg::x(7));
    assert_eq!(code_words(&r), vec![0xAA0003E0 | (7 << 16) | 2]);
}

#[test]
fn add_and_sub_imm12_words() {
    let mut r = Routine::new("r".to_string());
    r.add_imm12(Reg::x(1), Reg::x(2), 0x123);
    r.sub_imm12(Reg::w(1), Reg::w(2), 0xFFF);
    assert_eq!(
        code_words(&r),
        vec![
            0x91000000 | (0x123 << 10) | (2 << 5) | 1,
            0x51000000 | (0xFFF << 10) | (2 << 5) | 1,
        ]
    );
}

#[test]
fn branch_relative_words() {
    let mut r = Routine::new("r".to_string());
    r.br_rel(2);
    r.br_rel(-1);
    r.br_rel_link(-0x2000000);
    assert_eq!(
        code_words(&r),
        vec![0x14000002, 0x17FFFFFF, 0x94000000 | 0x2000000]
    );
}

#[test]
fn branch_register_words() {
    let mut r = Routine::new("r".to_string());
    r.br_reg(Reg::x(9));
    r.br_reg_link(Reg::x(30));
    assert_eq!(
        code_words(&r),
        vec![0xD61F0000 | (9 << 5), 0xD63F0000 | (30 << 5)]
    );
}

#[test]
fn load_store_words() {
    let mut r = Routine::new("r".to_string());
    r.str_uimm12_offset(Reg::x(0), Reg::x(1), 4);
    r.ldr_uimm12_offset(Reg::x(5), Reg::x(0), 4);
    r.str_imm9_pre_offset(Reg::x(31), Reg::x(30), -16);
    r.ldr_uimm9_post_offset(Reg::x(31), Reg::x(30), 16);
    r.ldr_rel19(Reg::x(2), -2);
    assert_eq!(
        code_words(&r),
        vec![
            0xB9000000 | (1 << 30) | (4 << 10) | (0 << 5) | 1,
            0xB9400000 | (1 << 30) | (4 << 10) | (0 << 5) | 5,
            0xB8000C00 | (1 << 30) | ((0x200 - 16) << 12) | (31 << 5) | 30,
            0xB8400400 | (1 << 30) | (16 << 12) | (31 << 5) | 30,
            0x18000000 | (1 << 30) | ((0x80000 - 2) << 5) | 2,
        ]
    );
}

#[test]
fn deferred_emissions_reserve_a_nop_slot() {
    let mut r = Routine::new("r".to_string());
    r.br("somewhere".to_string());
    r.br_link("somewhere".to_string());
    r.ldr_const(Reg::x(0), 0);
    r.ldr_global_const(Reg::x(0), 0);
    // Code size is fixed at emission time: one placeholder per reference.
    assert_eq!(
        code_words(&r),
        vec![0xD503201F, 0xD503201F, 0xD503201F, 0xD503201F]
    );
    assert_eq!(r.post_ops.len(), 4);
}

#[test]
fn constant_indices_count_in_32_bit_units() {
    let mut r = Routine::new("r".to_string());
    assert_eq!(r.const_32(1), 0);
    assert_eq!(r.const_64(2), 1);
    assert_eq!(r.const_32(3), 3);
    assert_eq!(r.constants.len(), 16);

    let mut unit = Asm::default();
    assert_eq!(unit.const_64(1), 0);
    assert_eq!(unit.const_32(2), 2);
}

#[test]
fn raw_writers_patch_in_place() {
    let mut bytes = vec![0u8; 12];
    raw::write_ne_32(&mut bytes, 4, 0x11223344);
    assert_eq!(bytes, [0, 0, 0, 0, 0x44, 0x33, 0x22, 0x11, 0, 0, 0, 0]);
    raw::br_reg(&mut bytes, 0, Reg::x(1));
    assert_eq!(u32::from_le_bytes([bytes[0], bytes[1], bytes[2], bytes[3]]), 0xD61F0000 | (1 << 5));
    raw::br_reg_link(&mut bytes, 8, Reg::x(2));
    assert_eq!(
        u32::from_le_bytes([bytes[8], bytes[9], bytes[10], bytes[11]]),
        0xD63F0000 | (2 << 5)
    );
}

#[test]
fn raw_load_const_encodes_relative_to_its_slot() {
    let mut bytes = vec![0u8; 8];
    // An instruction at byte 4 loading the constant in 32-bit unit 0.
    raw::load_const(&mut bytes, 4, Reg::x(3), 0);
    let w = u32::from_le_bytes([bytes[4], bytes[5], bytes[6], bytes[7]]);
    assert_eq!(w, 0x18000000 | (1 << 30) | (0x7FFFF << 5) | 3);
}

#[test]
fn raw_load_global_const_uses_pool_base() {
    let mut unit = Asm::default();
    // Only a finalizing assembler may answer for the pool's base address.
    unit.finalizing = true;
    unit.const_addr = 0x1000;
    let mut bytes = vec![0u8; 8];
    // An instruction at absolute address 0x2000 loading pool unit 2.
    raw::load_global_const(&unit, 0x2000, &mut bytes, 0, Reg::x(4), 2);
    let w = u32::from_le_bytes([bytes[0], bytes[1], bytes[2], bytes[3]]);
    // Displacement in instruction words: (0x1000 + 8 - 0x2000) / 4 = -1022.
    assert_eq!(w, 0x18000000 | (1 << 30) | ((0x80000 - 1022) << 5) | 4);
}

#[test]
fn raw_imm9_words() {
    assert_eq!(
        raw::ldr_imm9_post_offset(Reg::x(1), Reg::x(2), 8),
        0xB8400400 | (1 << 30) | (8 << 12) | (1 << 5) | 2
    );
    assert_eq!(
        raw::str_imm9_pre_offset(Reg::x(1), Reg::w(2), -1),
        0xB8000C00 | (0x1FF << 12) | (1 << 5) | 2
    );
}

#[test]
fn align_rounds_up_to_page_multiples() {
    assert_eq!(align(0, 4096), 0);
    assert_eq!(align(1, 4096), 4096);
    assert_eq!(align(4096, 4096), 4096);
    assert_eq!(align(4097, 4096), 8192);
}
