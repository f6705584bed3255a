use a64jit::assembler::{Asm, AsmError};
use a64jit::routine::Routine;

#[test]
fn branch_beyond_26_bit_range_fails() {
    let mut unit = Asm::default();
    let mut near = Routine::new("near".to_string());
    near.br("far".to_string());
    near.ret();
    unit.push_routine(near);
    // Push enough constant data between the two routines that the branch
    // displacement exceeds 2^25 instruction words (2^27 bytes).
    let mut pad = Routine::new("pad".to_string());
    for _ in 0..0x1000000u64 {
        pad.const_64(0);
    }
    pad.ret();
    unit.push_routine(pad);
    let mut far = Routine::new("far".to_string());
    far.ret();
    unit.push_routine(far);
    assert_eq!(unit.virtual_jit().unwrap_err(), AsmError::BranchOutOfRange);
}
