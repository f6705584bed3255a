//! Laws of the finished image: what can be read back out of the bytes that
//! finalization writes.
//!
//! Every deferred patch overwrites its own placeholder and nothing else, so
//! the displacement field of each patched instruction can be decoded from
//! the image and leads back exactly to the address the patch resolved.

use vstd::prelude::*;

use vstd::arithmetic::div_mod::{
    lemma_fundamental_div_mod, lemma_fundamental_div_mod_converse, lemma_mod_multiples_vanish,
    lemma_small_mod, lemma_sub_mod_noop,
};

use crate::assembler::{
    base_image, entry_of, image_size, jit_image, label_entry, layout_wf, lemma_first_labeled_bounds,
    lemma_flat_len, lemma_op_pos_facts, lemma_start_of_mod4, lemma_start_of_mono,
    lemma_start_of_nonneg, lemma_sym_lookup, op_pos, op_word, ops_ok, patch_ops, patch_routines,
    st_lookup, sym_table, AsmError, Asm, first_labeled,
};
use crate::raw::{
    decode19, decode26, lemma_patch4_len, lemma_patch4_outside, patch4, u32_at,
};
use crate::routine::{op_const_index, op_in_code, op_label, op_offset, OpV, RoutineV};

verus! {

/// Applying a routine's patches never changes the image length.
proof fn lemma_patch_ops_len(img: Seq<u8>, gl: Seq<u8>, rs: Seq<RoutineV>, i: int, j: int)
    requires
        layout_wf(gl, rs),
        0 <= i < rs.len(),
        j <= rs[i].post_ops.len(),
        img.len() == image_size(gl, rs),
    ensures
        patch_ops(img, gl, rs, i, j).len() == img.len(),
    decreases j,
{
    if j > 0 {
        lemma_patch_ops_len(img, gl, rs, i, j - 1);
        let op = rs[i].post_ops[j - 1];
        match op_word(gl, rs, i, op) {
            Ok(w) => {
                assert(rs[i].wf());
                lemma_op_pos_facts(gl, rs, i, op);
                lemma_patch4_len(patch_ops(img, gl, rs, i, j - 1), op_pos(gl, rs, i, op), w);
            },
            Err(_) => {},
        }
    }
}

/// A byte that no patch of routine `i` in positions `j_lo .. j_hi` covers is
/// the same before and after those patches.
proof fn lemma_patch_ops_byte_between(
    img: Seq<u8>,
    gl: Seq<u8>,
    rs: Seq<RoutineV>,
    i: int,
    j_lo: int,
    j_hi: int,
    p: int,
)
    requires
        layout_wf(gl, rs),
        0 <= i < rs.len(),
        0 <= j_lo <= j_hi <= rs[i].post_ops.len(),
        img.len() == image_size(gl, rs),
        0 <= p < img.len(),
        forall|j: int|
            j_lo <= j < j_hi ==> !(op_pos(gl, rs, i, #[trigger] rs[i].post_ops[j]) <= p < op_pos(
                gl,
                rs,
                i,
                rs[i].post_ops[j],
            ) + 4),
    ensures
        patch_ops(img, gl, rs, i, j_hi)[p] == patch_ops(img, gl, rs, i, j_lo)[p],
    decreases j_hi - j_lo,
{
    if j_hi > j_lo {
        lemma_patch_ops_byte_between(img, gl, rs, i, j_lo, j_hi - 1, p);
        lemma_patch_ops_len(img, gl, rs, i, j_hi - 1);
        let op = rs[i].post_ops[j_hi - 1];
        match op_word(gl, rs, i, op) {
            Ok(w) => {
                assert(rs[i].wf());
                lemma_op_pos_facts(gl, rs, i, op);
                lemma_patch4_outside(
                    patch_ops(img, gl, rs, i, j_hi - 1),
                    op_pos(gl, rs, i, op),
                    w,
                    p,
                );
            },
            Err(_) => {},
        }
    }
}

/// Applying whole routines' patches never changes the image length.
proof fn lemma_patch_routines_len(img: Seq<u8>, gl: Seq<u8>, rs: Seq<RoutineV>, k: int)
    requires
        layout_wf(gl, rs),
        k <= rs.len(),
        img.len() == image_size(gl, rs),
    ensures
        patch_routines(img, gl, rs, k).len() == img.len(),
    decreases k,
{
    if k > 0 {
        lemma_patch_routines_len(img, gl, rs, k - 1);
        lemma_patch_ops_len(
            patch_routines(img, gl, rs, k - 1),
            gl,
            rs,
            k - 1,
            rs[k - 1].post_ops.len() as int,
        );
    }
}

/// A byte that lies before the span of routine `k0` is untouched by the
/// patches of routines `k0` and later.
proof fn lemma_patch_routines_byte_from(
    img: Seq<u8>,
    gl: Seq<u8>,
    rs: Seq<RoutineV>,
    k0: int,
    k: int,
    p: int,
)
    requires
        layout_wf(gl, rs),
        0 <= k0 <= k <= rs.len(),
        img.len() == image_size(gl, rs),
        0 <= p,
        p < gl.len() + crate::assembler::start_of(rs, k0),
    ensures
        patch_routines(img, gl, rs, k)[p] == patch_routines(img, gl, rs, k0)[p],
    decreases k - k0,
{
    if k > k0 {
        lemma_patch_routines_byte_from(img, gl, rs, k0, k - 1, p);
        lemma_patch_routines_len(img, gl, rs, k - 1);
        let prev = patch_routines(img, gl, rs, k - 1);
        lemma_start_of_mono(rs, k0, k - 1);
        lemma_start_of_mono(rs, k, rs.len() as int);
        lemma_start_of_nonneg(rs, k0);
        assert forall|j: int| 0 <= j < rs[k - 1].post_ops.len() implies !(op_pos(
            gl,
            rs,
            k - 1,
            #[trigger] rs[k - 1].post_ops[j],
        ) <= p < op_pos(gl, rs, k - 1, rs[k - 1].post_ops[j]) + 4) by {
            assert(rs[k - 1].wf());
            assert(op_in_code(rs[k - 1].post_ops[j], rs[k - 1].code.len() as int));
        }
        lemma_patch_ops_byte_between(
            prev,
            gl,
            rs,
            k - 1,
            0,
            rs[k - 1].post_ops.len() as int,
            p,
        );
        assert(patch_ops(prev, gl, rs, k - 1, 0) == prev);
    }
}

/// The finished image is exactly as long as the layout computed.
pub proof fn lemma_image_len(gl: Seq<u8>, rs: Seq<RoutineV>)
    requires
        layout_wf(gl, rs),
    ensures
        jit_image(gl, rs).len() == image_size(gl, rs),
{
    lemma_flat_len(rs, rs.len() as int);
    lemma_patch_routines_len(base_image(gl, rs), gl, rs, rs.len() as int);
}

/// Recomposing a little-endian word from four bytes of an image.
proof fn lemma_u32_at_value(img: Seq<u8>, pos: int, w: u32)
    requires
        0 <= pos,
        pos + 4 <= img.len(),
        img[pos] == w % 0x100,
        img[pos + 1] == (w / 0x100) % 0x100,
        img[pos + 2] == (w / 0x10000) % 0x100,
        img[pos + 3] == (w / 0x1000000) % 0x100,
    ensures
        u32_at(img, pos) == w,
{
    assert(w % 0x100 + 0x100 * ((w / 0x100) % 0x100) + 0x10000 * ((w / 0x10000) % 0x100)
        + 0x1000000 * ((w / 0x1000000) % 0x100) == w) by (bit_vector);
}

/// One byte of a successfully resolved patch survives into the finished
/// image: the patches that come after it land elsewhere.
proof fn lemma_patched_word_byte(gl: Seq<u8>, rs: Seq<RoutineV>, i: int, j: int, p: int)
    requires
        layout_wf(gl, rs),
        0 <= i < rs.len(),
        0 <= j < rs[i].post_ops.len(),
        op_word(gl, rs, i, rs[i].post_ops[j]) is Ok,
        op_pos(gl, rs, i, rs[i].post_ops[j]) <= p < op_pos(gl, rs, i, rs[i].post_ops[j]) + 4,
    ensures
        jit_image(gl, rs)[p] == patch_ops(
            patch_routines(base_image(gl, rs), gl, rs, i),
            gl,
            rs,
            i,
            j + 1,
        )[p],
{
    lemma_image_len(gl, rs);
    lemma_flat_len(rs, rs.len() as int);
    let op = rs[i].post_ops[j];
    let pos = op_pos(gl, rs, i, op);
    let img0 = base_image(gl, rs);
    let m_i = patch_routines(img0, gl, rs, i);
    lemma_patch_routines_len(img0, gl, rs, i);
    assert(rs[i].wf());
    lemma_op_pos_facts(gl, rs, i, op);
    lemma_start_of_mono(rs, i + 1, rs.len() as int);
    assert forall|j2: int| j + 1 <= j2 < rs[i].post_ops.len() implies !(op_pos(
        gl,
        rs,
        i,
        #[trigger] rs[i].post_ops[j2],
    ) <= p < op_pos(gl, rs, i, rs[i].post_ops[j2]) + 4) by {
        assert(op_in_code(rs[i].post_ops[j2], rs[i].code.len() as int));
        assert(op_offset(op) + 4 <= op_offset(rs[i].post_ops[j2]));
    }
    lemma_patch_ops_byte_between(m_i, gl, rs, i, j + 1, rs[i].post_ops.len() as int, p);
    lemma_patch_routines_byte_from(img0, gl, rs, i + 1, rs.len() as int, p);
    assert(patch_routines(img0, gl, rs, i + 1) == patch_ops(
        m_i,
        gl,
        rs,
        i,
        rs[i].post_ops.len() as int,
    ));
}

/// In the finished image, the placeholder of every successfully resolved
/// patch holds exactly the word the patch resolved to: later patches land
/// elsewhere and overwrite nothing of it.
pub proof fn lemma_patched_word(gl: Seq<u8>, rs: Seq<RoutineV>, i: int, j: int)
    requires
        layout_wf(gl, rs),
        0 <= i < rs.len(),
        0 <= j < rs[i].post_ops.len(),
        op_word(gl, rs, i, rs[i].post_ops[j]) is Ok,
    ensures
        jit_image(gl, rs).len() == image_size(gl, rs),
        u32_at(jit_image(gl, rs), op_pos(gl, rs, i, rs[i].post_ops[j])) == op_word(
            gl,
            rs,
            i,
            rs[i].post_ops[j],
        )->Ok_0,
{
    lemma_image_len(gl, rs);
    lemma_flat_len(rs, rs.len() as int);
    let op = rs[i].post_ops[j];
    let pos = op_pos(gl, rs, i, op);
    let w = op_word(gl, rs, i, op)->Ok_0;
    let img0 = base_image(gl, rs);
    let m_i = patch_routines(img0, gl, rs, i);
    lemma_patch_routines_len(img0, gl, rs, i);
    let mj = patch_ops(m_i, gl, rs, i, j);
    lemma_patch_ops_len(m_i, gl, rs, i, j);
    let mj1 = patch_ops(m_i, gl, rs, i, j + 1);
    assert(mj1 == patch4(mj, pos, w));
    assert(rs[i].wf());
    lemma_op_pos_facts(gl, rs, i, op);
    lemma_patch4_len(mj, pos, w);
    let full_i = patch_ops(m_i, gl, rs, i, rs[i].post_ops.len() as int);
    assert(patch_routines(img0, gl, rs, i + 1) == full_i);
    lemma_start_of_mono(rs, i + 1, rs.len() as int);
    lemma_patched_word_byte(gl, rs, i, j, pos);
    lemma_patched_word_byte(gl, rs, i, j, pos + 1);
    lemma_patched_word_byte(gl, rs, i, j, pos + 2);
    lemma_patched_word_byte(gl, rs, i, j, pos + 3);
    assert(mj1[pos] == w % 0x100 && mj1[pos + 1] == (w / 0x100) % 0x100 && mj1[pos + 2] == (w
        / 0x10000) % 0x100 && mj1[pos + 3] == (w / 0x1000000) % 0x100);
    lemma_u32_at_value(jit_image(gl, rs), pos, w);
}


/// *Round-trip addressing.*  After finalization, every deferred branch's
/// placeholder holds a branch word whose 26-bit displacement field, decoded
/// and scaled back to bytes, leads from the instruction's own offset exactly
/// to the offset the symbol table records for the target label.
pub proof fn lemma_branch_round_trip(gl: Seq<u8>, rs: Seq<RoutineV>, i: int, j: int)
    requires
        layout_wf(gl, rs),
        0 <= i < rs.len(),
        0 <= j < rs[i].post_ops.len(),
        rs[i].post_ops[j] is Branch || rs[i].post_ops[j] is BranchWithLink,
        op_word(gl, rs, i, rs[i].post_ops[j]) is Ok,
    ensures
        ({
            let op = rs[i].post_ops[j];
            let pos = op_pos(gl, rs, i, op);
            let field = u32_at(jit_image(gl, rs), pos) % 0x4000000;
            st_lookup(sym_table(gl, rs, 0), op_label(op)) == Some(pos + 4 * decode26(field))
        }),
{
    lemma_patched_word(gl, rs, i, j);
    let op = rs[i].post_ops[j];
    let pos = op_pos(gl, rs, i, op);
    let w = op_word(gl, rs, i, op)->Ok_0;
    let t = label_entry(gl, rs, op_label(op))->Some_0;
    let rel = (t - pos) / 4;
    let f = crate::raw::field26(rel);
    // Extract the displacement field from the patched word.
    if op is Branch {
        assert(w == crate::raw::branch_word(false, rel));
        lemma_mod_multiples_vanish(5, f, 0x4000000);
        assert(0x4000000 * 5 + f == 0x14000000 + f);
    } else {
        assert(w == crate::raw::branch_word(true, rel));
        lemma_mod_multiples_vanish(37, f, 0x4000000);
        assert(0x4000000 * 37 + f == 0x94000000 + f);
    }
    lemma_small_mod(f as nat, 0x4000000nat);
    assert(w as int % 0x4000000 == f);
    // The field decodes back to the displacement.
    crate::raw::lemma_branch_field_round_trip(rel);
    // The byte difference is an exact multiple of the instruction width.
    assert(rs[i].wf());
    lemma_op_pos_facts(gl, rs, i, op);
    let k = first_labeled(rs, op_label(op), 0)->Some_0;
    lemma_first_labeled_bounds(rs, op_label(op), 0);
    lemma_start_of_mod4(rs, k);
    assert(rs[k].wf());
    assert(t % 4 == 0);
    lemma_sub_mod_noop(t, pos, 4);
    lemma_fundamental_div_mod(t - pos, 4);
    assert(4 * rel == t - pos);
    // The symbol table with base zero records exactly the entry offsets.
    lemma_sym_lookup(gl, rs, 0, op_label(op));
}

/// *Shared global constants, single copy.*  After finalization, every
/// resolved global-constant load's placeholder holds a literal-load word
/// whose 19-bit displacement field, decoded and scaled back to bytes, leads
/// from the instruction's own offset exactly to the referenced constant's
/// place inside the global pool at the front of the image.
pub proof fn lemma_global_const_round_trip(gl: Seq<u8>, rs: Seq<RoutineV>, i: int, j: int)
    requires
        layout_wf(gl, rs),
        0 <= i < rs.len(),
        0 <= j < rs[i].post_ops.len(),
        rs[i].post_ops[j] is LoadGlobalConst,
        op_word(gl, rs, i, rs[i].post_ops[j]) is Ok,
    ensures
        ({
            let op = rs[i].post_ops[j];
            let pos = op_pos(gl, rs, i, op);
            let field = (u32_at(jit_image(gl, rs), pos) / 0x20) % 0x80000;
            pos + 4 * decode19(field) == 4 * op_const_index(op)
        }),
{
    lemma_patched_word(gl, rs, i, j);
    let op = rs[i].post_ops[j];
    let pos = op_pos(gl, rs, i, op);
    let w = op_word(gl, rs, i, op)->Ok_0;
    assert(rs[i].wf());
    lemma_op_pos_facts(gl, rs, i, op);
    let kk = op_const_index(op);
    let rel = kk - (entry_of(gl, rs, i) + op_offset(op)) / 4;
    assert(w == crate::raw::ldr_lit_word(op->LoadGlobalConst_dst_reg, rel));
    let f = crate::raw::field19(rel);
    let wb = crate::reg::wide_bit(op->LoadGlobalConst_dst_reg);
    let enc = crate::reg::reg_enc(op->LoadGlobalConst_dst_reg);
    let q = 0xC00000 + wb * 0x2000000 + f;
    assert(w == q * 0x20 + enc) by (nonlinear_arith)
        requires
            w == (0x18000000 + wb * 0x40000000 + f * 0x20 + enc) as u32,
            q == 0xC00000 + wb * 0x2000000 + f,
            0 <= f < 0x80000,
            0 <= enc < 32,
            wb == 0 || wb == 1,
    ;
    lemma_fundamental_div_mod_converse(w as int, 0x20, q, enc);
    assert(w as int / 0x20 == q);
    lemma_mod_multiples_vanish(24 + wb * 64, f, 0x80000);
    assert(0x80000 * (24 + wb * 64) + f == q) by (nonlinear_arith)
        requires
            q == 0xC00000 + wb * 0x2000000 + f,
    ;
    lemma_small_mod(f as nat, 0x80000nat);
    assert(q % 0x80000 == f);
    crate::raw::lemma_load_field_round_trip(rel);
    // The byte position is an exact multiple of the instruction width.
    lemma_fundamental_div_mod(pos, 4);
    assert(4 * (pos / 4) == pos);
}

/// *Local versus global constants.*  Two resolved global-constant loads that
/// name the same pool index — wherever they sit, even in different routines —
/// decode to displacements that lead to one and the same place in the image:
/// the single copy of that constant.  When the two instructions sit at
/// different offsets, their encodings necessarily differ.
pub proof fn lemma_global_const_shared(
    gl: Seq<u8>,
    rs: Seq<RoutineV>,
    i1: int,
    j1: int,
    i2: int,
    j2: int,
)
    requires
        layout_wf(gl, rs),
        0 <= i1 < rs.len(),
        0 <= j1 < rs[i1].post_ops.len(),
        0 <= i2 < rs.len(),
        0 <= j2 < rs[i2].post_ops.len(),
        rs[i1].post_ops[j1] is LoadGlobalConst,
        rs[i2].post_ops[j2] is LoadGlobalConst,
        op_const_index(rs[i1].post_ops[j1]) == op_const_index(rs[i2].post_ops[j2]),
        op_word(gl, rs, i1, rs[i1].post_ops[j1]) is Ok,
        op_word(gl, rs, i2, rs[i2].post_ops[j2]) is Ok,
    ensures
        ({
            let pos1 = op_pos(gl, rs, i1, rs[i1].post_ops[j1]);
            let pos2 = op_pos(gl, rs, i2, rs[i2].post_ops[j2]);
            let field1 = (u32_at(jit_image(gl, rs), pos1) / 0x20) % 0x80000;
            let field2 = (u32_at(jit_image(gl, rs), pos2) / 0x20) % 0x80000;
            &&& pos1 + 4 * decode19(field1) == pos2 + 4 * decode19(field2)
            &&& pos1 != pos2 ==> field1 != field2
        }),
{
    lemma_global_const_round_trip(gl, rs, i1, j1);
    lemma_global_const_round_trip(gl, rs, i2, j2);
}

/// *Range enforcement.*  A deferred branch whose target lies farther away
/// than the 26-bit field can express resolves to the distinct out-of-range
/// failure — never to a silently truncated encoding — and finalization of
/// the whole set cannot succeed.
pub proof fn lemma_branch_range_enforced(gl: Seq<u8>, rs: Seq<RoutineV>, i: int, j: int)
    requires
        0 <= i < rs.len(),
        0 <= j < rs[i].post_ops.len(),
        rs[i].post_ops[j] is Branch || rs[i].post_ops[j] is BranchWithLink,
        label_entry(gl, rs, op_label(rs[i].post_ops[j])) is Some,
        !crate::raw::in_branch_range(
            (label_entry(gl, rs, op_label(rs[i].post_ops[j]))->Some_0 - op_pos(
                gl,
                rs,
                i,
                rs[i].post_ops[j],
            )) / 4,
        ),
    ensures
        op_word(gl, rs, i, rs[i].post_ops[j]) == Err::<u32, AsmError>(AsmError::BranchOutOfRange),
        !ops_ok(gl, rs),
{
    assert(!(op_word(gl, rs, i, rs[i].post_ops[j]) is Ok));
}

/// *Undefined label.*  A deferred branch to a name that no pushed routine
/// carries resolves to the distinct undefined-label failure, and
/// finalization of the whole set cannot succeed.
pub proof fn lemma_undefined_label(gl: Seq<u8>, rs: Seq<RoutineV>, i: int, j: int)
    requires
        0 <= i < rs.len(),
        0 <= j < rs[i].post_ops.len(),
        rs[i].post_ops[j] is Branch || rs[i].post_ops[j] is BranchWithLink,
        label_entry(gl, rs, op_label(rs[i].post_ops[j])) is None,
    ensures
        op_word(gl, rs, i, rs[i].post_ops[j]) == Err::<u32, AsmError>(AsmError::UndefinedLabel),
        !ops_ok(gl, rs),
{
    assert(!(op_word(gl, rs, i, rs[i].post_ops[j]) is Ok));
}

/// *Virtual blob determinism.*  The finished image, the symbol table and
/// the success of finalization are functions of the pushed constants and
/// routines alone: two assemblers built from the same sequence of pushes
/// produce byte-identical blobs and identical tables, at any base address.
pub proof fn lemma_virtual_determinism(a: Asm, b: Asm, base: int)
    requires
        a@.constants == b@.constants,
        a@.routines == b@.routines,
    ensures
        jit_image(a@.constants, a@.routines) == jit_image(b@.constants, b@.routines),
        sym_table(a@.constants, a@.routines, base) == sym_table(b@.constants, b@.routines, base),
        image_size(a@.constants, a@.routines) == image_size(b@.constants, b@.routines),
        ops_ok(a@.constants, a@.routines) == ops_ok(b@.constants, b@.routines),
{
}


} // verus!
