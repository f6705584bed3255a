use a64jit::assembler::{Asm, AsmError};
use a64jit::reg::Reg;
use a64jit::routine::Routine;

fn word_at(blob: &[u8], pos: usize) -> u32 {
    u32::from_le_bytes([blob[pos], blob[pos + 1], blob[pos + 2], blob[pos + 3]])
}

fn decode26(field: u32) -> i64 {
    if field >= 0x2000000 {
        field as i64 - 0x4000000
    } else {
        field as i64
    }
}

fn decode19(field: u32) -> i64 {
    if field >= 0x40000 {
        field as i64 - 0x80000
    } else {
        field as i64
    }
}

const NOP: u32 = 0xD503201F;
const RET: u32 = 0xD65F03C0;

#[test]
fn empty_assembler_produces_empty_image() {
    let unit = Asm::default();
    let (blob, table) = unit.virtual_jit().unwrap();
    assert!(blob.is_empty());
    assert_eq!(table.entries.len(), 0);
}

#[test]
fn single_routine_layout_and_table() {
    let mut unit = Asm::default();
    let mut main = Routine::new("main".to_string());
    main.nop();
    main.ret();
    unit.push_routine(main);
    let (blob, table) = unit.virtual_jit().unwrap();
    assert_eq!(blob.len(), 8);
    assert_eq!(word_at(&blob, 0), NOP);
    assert_eq!(word_at(&blob, 4), RET);
    assert_eq!(table.lookup(&"main".to_string()), Some(0));
    assert_eq!(table.lookup(&"other".to_string()), None);
}

#[test]
fn branch_round_trip_forward_and_backward() {
    let mut unit = Asm::default();
    let mut alpha = Routine::new("alpha".to_string());
    alpha.nop();
    alpha.br("beta".to_string());
    alpha.ret();
    unit.push_routine(alpha);
    let mut beta = Routine::new("beta".to_string());
    beta.br("alpha".to_string());
    beta.ret();
    unit.push_routine(beta);
    let (blob, table) = unit.virtual_jit().unwrap();
    assert_eq!(blob.len(), 20);
    let alpha_at = table.lookup(&"alpha".to_string()).unwrap();
    let beta_at = table.lookup(&"beta".to_string()).unwrap();
    assert_eq!(alpha_at, 0);
    assert_eq!(beta_at, 12);

    // The forward branch sits at offset 4 and must lead to beta's entry.
    let w1 = word_at(&blob, 4);
    assert_eq!(w1 >> 26, 0x14000000 >> 26);
    assert_eq!(w1, 0x14000002);
    assert_eq!(4 + 4 * decode26(w1 & 0x3FFFFFF), beta_at as i64);

    // The backward branch sits at offset 12 and must lead to alpha's entry.
    let w2 = word_at(&blob, 12);
    assert_eq!(w2, 0x14000000 | 0x3FFFFFD);
    assert_eq!(12 + 4 * decode26(w2 & 0x3FFFFFF), alpha_at as i64);
}

#[test]
fn branch_with_link_uses_link_opcode() {
    let mut unit = Asm::default();
    let mut main = Routine::new("main".to_string());
    main.br_link("helper".to_string());
    main.ret();
    unit.push_routine(main);
    let mut helper = Routine::new("helper".to_string());
    helper.ret();
    unit.push_routine(helper);
    let (blob, table) = unit.virtual_jit().unwrap();
    let helper_at = table.lookup(&"helper".to_string()).unwrap();
    assert_eq!(helper_at, 8);
    let w = word_at(&blob, 0);
    // Same displacement rule as the plain branch, link opcode on top.
    assert_eq!(w, 0x94000000 | 2);
    assert_eq!(0 + 4 * decode26(w & 0x3FFFFFF), helper_at as i64);
}

#[test]
fn local_constant_sits_before_code_and_label_points_at_code() {
    let mut unit = Asm::default();
    let mut r = Routine::new("c".to_string());
    let idx = r.const_32(0xDEADBEEF);
    assert_eq!(idx, 0);
    r.ldr_const(Reg::x(1), idx);
    r.ret();
    unit.push_routine(r);
    let (blob, table) = unit.virtual_jit().unwrap();
    // Four constant bytes first; the label points at the first code byte.
    assert_eq!(&blob[0..4], &[0xEF, 0xBE, 0xAD, 0xDE]);
    assert_eq!(table.lookup(&"c".to_string()), Some(4));
    // The load at offset 4 reaches one instruction backwards.
    let w = word_at(&blob, 4);
    assert_eq!(w, 0x18000000 + 0x40000000 + 0x7FFFF * 0x20 + 1);
    let target = 4 + 4 * decode19((w >> 5) & 0x7FFFF);
    assert_eq!(target, 0);
    assert_eq!(word_at(&blob, 8), RET);
}

#[test]
fn global_constant_shared_by_two_routines() {
    let mut unit = Asm::default();
    let g = unit.const_64(0x1122334455667788);
    assert_eq!(g, 0);
    let mut one = Routine::new("one".to_string());
    one.ldr_global_const(Reg::x(9), g);
    one.ret();
    unit.push_routine(one);
    let mut two = Routine::new("two".to_string());
    two.ldr_global_const(Reg::x(9), g);
    two.ret();
    unit.push_routine(two);
    let (blob, table) = unit.virtual_jit().unwrap();
    assert_eq!(&blob[0..8], &[0x88, 0x77, 0x66, 0x55, 0x44, 0x33, 0x22, 0x11]);
    assert_eq!(table.lookup(&"one".to_string()), Some(8));
    assert_eq!(table.lookup(&"two".to_string()), Some(16));
    let w1 = word_at(&blob, 8);
    let w2 = word_at(&blob, 16);
    // Two different encodings...
    assert_ne!(w1, w2);
    // ...whose displacements lead to the same single copy of the constant.
    let t1 = 8 + 4 * decode19((w1 >> 5) & 0x7FFFF);
    let t2 = 16 + 4 * decode19((w2 >> 5) & 0x7FFFF);
    assert_eq!(t1, 0);
    assert_eq!(t2, 0);
}

#[test]
fn undefined_label_fails_without_partial_result() {
    let mut unit = Asm::default();
    let mut main = Routine::new("main".to_string());
    main.br("nowhere".to_string());
    main.ret();
    unit.push_routine(main);
    assert_eq!(unit.virtual_jit().unwrap_err(), AsmError::UndefinedLabel);
}

#[test]
fn local_constant_out_of_range_fails() {
    let mut unit = Asm::default();
    let mut r = Routine::new("r".to_string());
    r.ldr_const(Reg::x(0), 0x40000);
    r.ret();
    unit.push_routine(r);
    assert_eq!(unit.virtual_jit().unwrap_err(), AsmError::ConstOutOfRange);
}

#[test]
fn global_constant_out_of_range_fails() {
    let mut unit = Asm::default();
    let g = unit.const_32(7);
    assert_eq!(g, 0);
    let mut r = Routine::new("r".to_string());
    r.ldr_global_const(Reg::x(0), 0x40001);
    r.ret();
    unit.push_routine(r);
    assert_eq!(unit.virtual_jit().unwrap_err(), AsmError::ConstOutOfRange);
}

#[test]
fn label_queries_fail_before_finalization() {
    let mut unit = Asm::default();
    let mut main = Routine::new("main".to_string());
    main.ret();
    unit.push_routine(main);
    // The routine exists, but no finalization has begun.
    assert_eq!(
        unit.get_label_address(&"main".to_string()),
        Err(AsmError::IllegalAccess)
    );
    assert_eq!(unit.global_const_address(), Err(AsmError::IllegalAccess));
}

#[test]
fn virtual_finalize_is_deterministic() {
    let build = || {
        let mut unit = Asm::default();
        let g = unit.const_64(0xABCDEF);
        let mut main = Routine::new("main".to_string());
        main.ldr_global_const(Reg::x(9), g);
        main.br_link("helper".to_string());
        main.ret();
        unit.push_routine(main);
        let mut helper = Routine::new("helper".to_string());
        let c = helper.const_32(42);
        helper.ldr_const(Reg::w(3), c);
        helper.ret();
        unit.push_routine(helper);
        unit
    };
    let (blob1, table1) = build().virtual_jit().unwrap();
    let (blob2, table2) = build().virtual_jit().unwrap();
    assert_eq!(blob1, blob2);
    assert_eq!(table1.entries, table2.entries);
}

#[test]
fn image_matches_any_base_address() {
    let build = || {
        let mut unit = Asm::default();
        let mut main = Routine::new("main".to_string());
        main.br("helper".to_string());
        main.ret();
        unit.push_routine(main);
        let mut helper = Routine::new("helper".to_string());
        helper.ret();
        unit.push_routine(helper);
        unit
    };
    // The virtual blob holds exactly the bytes an executable image holds at
    // any other base; only the symbol table shifts.
    let (blob0, table0) = build().virtual_jit().unwrap();
    let (blob1, table1) = build().jit_at(0x10000).unwrap();
    assert_eq!(blob0, blob1);
    let m0 = table0.lookup(&"main".to_string()).unwrap();
    let m1 = table1.lookup(&"main".to_string()).unwrap();
    assert_eq!(m1, m0 + 0x10000);
}

#[test]
fn duplicate_pushes_keep_first_entry_for_lookup() {
    let mut unit = Asm::default();
    let mut a = Routine::new("dup".to_string());
    a.ret();
    unit.push_routine(a);
    let mut b = Routine::new("dup".to_string());
    b.nop();
    b.ret();
    unit.push_routine(b);
    let (blob, table) = unit.virtual_jit().unwrap();
    assert_eq!(blob.len(), 12);
    assert_eq!(table.lookup(&"dup".to_string()), Some(0));
    assert_eq!(table.entries.len(), 2);
}
