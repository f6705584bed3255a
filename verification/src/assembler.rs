//! The assembler: it owns the pushed routines and the global constant pool,
//! lays every routine out at a concrete address, and resolves every deferred
//! patch against the finished layout.

use vstd::prelude::*;

use crate::raw;
use crate::raw::{branch_resolve, ldr_lit_resolve, patch4};
use crate::routine::{op_in_code, op_offset, Op, OpV, Routine, RoutineV};

verus! {

/// A failure of assembly or of an address query.
#[derive(Clone, Copy, Debug, PartialEq, Eq, Structural)]
pub enum AsmError {
    /// An address was queried before finalization began.
    IllegalAccess,
    /// A deferred branch names a label that no pushed routine provides.
    UndefinedLabel,
    /// A resolved branch displacement does not fit the 26-bit field.
    BranchOutOfRange,
    /// A resolved constant-load displacement does not fit the 19-bit field.
    ConstOutOfRange,
    /// The image (or its end address) does not fit the address space.
    ImageTooLarge,
}

/// A mapping from routine names to addresses, in insertion order; a lookup
/// returns the address recorded first for the name.
#[derive(Debug)]
pub struct SymbolTable {
    pub entries: Vec<(String, usize)>,
}

impl View for SymbolTable {
    type V = Seq<(Seq<char>, int)>;

    open spec fn view(&self) -> Seq<(Seq<char>, int)> {
        Seq::new(self.entries@.len(), |i: int| (self.entries@[i].0@, self.entries@[i].1 as int))
    }
}

/// The address recorded for `name` in `t`, scanning from position `i`.
pub open spec fn st_lookup_from(t: Seq<(Seq<char>, int)>, name: Seq<char>, i: int) -> Option<int>
    decreases t.len() - i,
{
    if i < 0 || i >= t.len() {
        None
    } else if t[i].0 == name {
        Some(t[i].1)
    } else {
        st_lookup_from(t, name, i + 1)
    }
}

/// The address recorded for `name` in `t`, if any.
pub open spec fn st_lookup(t: Seq<(Seq<char>, int)>, name: Seq<char>) -> Option<int> {
    st_lookup_from(t, name, 0)
}

/// Scanning may start past any prefix that holds no entry for `name`.
proof fn lemma_st_lookup_skip_prefix(t: Seq<(Seq<char>, int)>, name: Seq<char>, i: int)
    requires
        0 <= i <= t.len(),
        forall|k: int| 0 <= k < i ==> (#[trigger] t[k]).0 != name,
    ensures
        st_lookup(t, name) == st_lookup_from(t, name, i),
    decreases i,
{
    if i > 0 {
        lemma_st_lookup_skip_prefix(t.subrange(0, t.len() as int), name, i - 1);
        assert(t.subrange(0, t.len() as int) =~= t);
        lemma_st_lookup_prefix_step(t, name, i - 1);
    }
}

/// One scanning step over a non-matching entry.
proof fn lemma_st_lookup_prefix_step(t: Seq<(Seq<char>, int)>, name: Seq<char>, i: int)
    requires
        0 <= i < t.len(),
        t[i].0 != name,
    ensures
        st_lookup_from(t, name, i) == st_lookup_from(t, name, i + 1),
{
}

impl SymbolTable {
    /// An empty table.
    pub fn new() -> (t: SymbolTable)
        ensures
            t@ == Seq::<(Seq<char>, int)>::empty(),
    {
        let t = SymbolTable { entries: Vec::new() };
        proof {
            assert(t@ =~= Seq::<(Seq<char>, int)>::empty());
        }
        t
    }

    /// Records `addr` for `name` after every existing entry.
    pub fn push(&mut self, name: String, addr: usize)
        ensures
            final(self)@ == old(self)@ + seq![(name@, addr as int)],
    {
        self.entries.push((name, addr));
        proof {
            assert(self@ =~= old(self)@ + seq![(name@, addr as int)]);
        }
    }

    /// The number of entries.
    pub fn len(&self) -> (n: usize)
        ensures
            n == self@.len(),
    {
        self.entries.len()
    }

    /// The address recorded first for `label`, if any.
    pub fn lookup(&self, label: &String) -> (r: Option<usize>)
        ensures
            match r {
                Some(a) => st_lookup(self@, label@) == Some(a as int),
                None => st_lookup(self@, label@) is None,
            },
    {
        let n = self.entries.len();
        for i in 0..n
            invariant
                n == self.entries@.len(),
                forall|k: int| 0 <= k < i ==> (#[trigger] self@[k]).0 != label@,
        {
            if self.entries[i].0 == *label {
                proof {
                    lemma_st_lookup_skip_prefix(self@, label@, i as int);
                }
                return Some(self.entries[i].1);
            }
        }
        proof {
            lemma_st_lookup_skip_prefix(self@, label@, n as int);
        }
        None
    }
}

// ---------------------------------------------------------------------------
// The layout model: where every routine, label and patch lands in the image.
// ---------------------------------------------------------------------------

/// The byte offset, relative to the end of the global pool, at which routine
/// `i` begins (its local constants first, its code after them).
pub open spec fn start_of(rs: Seq<RoutineV>, i: int) -> int
    decreases i,
{
    if i <= 0 {
        0
    } else {
        start_of(rs, i - 1) + rs[i - 1].size()
    }
}

/// The total number of bytes of the final image: the global pool followed by
/// every routine in push order.
pub open spec fn image_size(gl: Seq<u8>, rs: Seq<RoutineV>) -> int {
    gl.len() + start_of(rs, rs.len() as int)
}

/// The image-relative entry offset of routine `i`: its first code byte,
/// after its local constants.
pub open spec fn entry_of(gl: Seq<u8>, rs: Seq<RoutineV>, i: int) -> int {
    gl.len() + start_of(rs, i) + rs[i].constants.len()
}

/// The first routine named `name` at position `i` or later, if any.
pub open spec fn first_labeled(rs: Seq<RoutineV>, name: Seq<char>, i: int) -> Option<int>
    decreases rs.len() - i,
{
    if i < 0 || i >= rs.len() {
        None
    } else if rs[i].name == name {
        Some(i)
    } else {
        first_labeled(rs, name, i + 1)
    }
}

/// The image-relative entry offset that the label `name` denotes, if any
/// pushed routine carries that name.
pub open spec fn label_entry(gl: Seq<u8>, rs: Seq<RoutineV>, name: Seq<char>) -> Option<int> {
    match first_labeled(rs, name, 0) {
        Some(i) => Some(entry_of(gl, rs, i)),
        None => None,
    }
}

/// The symbol table the layout produces: each routine's name bound to its
/// absolute entry address, in push order.
pub open spec fn sym_table(gl: Seq<u8>, rs: Seq<RoutineV>, base: int) -> Seq<(Seq<char>, int)> {
    Seq::new(rs.len(), |i: int| (rs[i].name, base + entry_of(gl, rs, i)))
}

/// Routine start offsets are non-negative.
pub proof fn lemma_start_of_nonneg(rs: Seq<RoutineV>, i: int)
    ensures
        start_of(rs, i) >= 0,
    decreases i,
{
    if i > 0 {
        lemma_start_of_nonneg(rs, i - 1);
    }
}

/// Routine start offsets never decrease.
pub proof fn lemma_start_of_mono(rs: Seq<RoutineV>, i: int, j: int)
    requires
        i <= j,
    ensures
        start_of(rs, i) <= start_of(rs, j),
    decreases j - i,
{
    if i < j {
        lemma_start_of_mono(rs, i, j - 1);
        if j - 1 >= 0 {
        } else {
            lemma_start_of_nonneg(rs, j);
        }
    }
}

/// With well-formed routines every start offset is a whole number of
/// instruction words.
pub proof fn lemma_start_of_mod4(rs: Seq<RoutineV>, i: int)
    requires
        forall|k: int| 0 <= k < rs.len() ==> (#[trigger] rs[k]).wf(),
        i <= rs.len(),
    ensures
        start_of(rs, i) % 4 == 0,
    decreases i,
{
    if i > 0 {
        lemma_start_of_mod4(rs, i - 1);
        assert(rs[i - 1].wf());
    }
}

/// A found label names a routine in range that carries that name.
pub proof fn lemma_first_labeled_bounds(rs: Seq<RoutineV>, name: Seq<char>, i: int)
    requires
        first_labeled(rs, name, i) is Some,
    ensures
        ({
            let k = first_labeled(rs, name, i)->Some_0;
            &&& i <= k < rs.len()
            &&& rs[k].name == name
        }),
    decreases rs.len() - i,
{
    if !(i < 0 || i >= rs.len()) && rs[i].name != name {
        lemma_first_labeled_bounds(rs, name, i + 1);
    }
}

/// A lookup in the produced symbol table finds exactly the label's entry
/// offset, shifted by the base address.
pub proof fn lemma_sym_lookup(gl: Seq<u8>, rs: Seq<RoutineV>, base: int, name: Seq<char>)
    ensures
        st_lookup(sym_table(gl, rs, base), name) == match label_entry(gl, rs, name) {
            Some(t) => Some(base + t),
            None => None::<int>,
        },
{
    lemma_sym_lookup_from(gl, rs, base, name, 0);
}

proof fn lemma_sym_lookup_from(gl: Seq<u8>, rs: Seq<RoutineV>, base: int, name: Seq<char>, i: int)
    ensures
        st_lookup_from(sym_table(gl, rs, base), name, i) == match first_labeled(rs, name, i) {
            Some(k) => Some(base + entry_of(gl, rs, k)),
            None => None::<int>,
        },
    decreases rs.len() - i,
{
    let t = sym_table(gl, rs, base);
    if i < 0 || i >= rs.len() {
    } else {
        lemma_sym_lookup_from(gl, rs, base, name, i + 1);
    }
}

// ---------------------------------------------------------------------------
// Patch resolution: the word each deferred patch resolves to, and the image
// after every patch is applied.
// ---------------------------------------------------------------------------

/// The image-relative byte position of the placeholder instruction that the
/// patch `op`, recorded in routine `i`, overwrites.
pub open spec fn op_pos(gl: Seq<u8>, rs: Seq<RoutineV>, i: int, op: OpV) -> int {
    entry_of(gl, rs, i) + op_offset(op)
}

/// The resolution of a deferred branch: the branch word for the displacement
/// from the placeholder to the label's entry, an undefined-label failure, or
/// an out-of-range failure.
pub open spec fn branch_op_word(
    gl: Seq<u8>,
    rs: Seq<RoutineV>,
    i: int,
    insn_offset: int,
    label: Seq<char>,
    link: bool,
) -> Result<u32, AsmError> {
    match label_entry(gl, rs, label) {
        None => Err(AsmError::UndefinedLabel),
        Some(t) => {
            let rel = (t - (entry_of(gl, rs, i) + insn_offset)) / 4;
            match branch_resolve(link, rel) {
                Some(w) => Ok(w),
                None => Err(AsmError::BranchOutOfRange),
            }
        },
    }
}

/// The resolution of the deferred patch `op`, recorded in routine `i`: the
/// instruction word to write over its placeholder, or the failure it raises.
/// No resolution depends on the base address: branches and constant loads
/// are relative, so the same image is laid out at every base.
pub open spec fn op_word(gl: Seq<u8>, rs: Seq<RoutineV>, i: int, op: OpV) -> Result<u32, AsmError> {
    match op {
        OpV::Branch { insn_offset, label } => branch_op_word(gl, rs, i, insn_offset, label, false),
        OpV::BranchWithLink { insn_offset, label } => branch_op_word(
            gl,
            rs,
            i,
            insn_offset,
            label,
            true,
        ),
        OpV::LoadConst { insn_offset, dst_reg, const_offset } => {
            let rel = const_offset - (rs[i].constants.len() + insn_offset) / 4;
            match ldr_lit_resolve(dst_reg, rel) {
                Some(w) => Ok(w),
                None => Err(AsmError::ConstOutOfRange),
            }
        },
        OpV::LoadGlobalConst { insn_offset, dst_reg, const_offset } => {
            let rel = const_offset - (entry_of(gl, rs, i) + insn_offset) / 4;
            match ldr_lit_resolve(dst_reg, rel) {
                Some(w) => Ok(w),
                None => Err(AsmError::ConstOutOfRange),
            }
        },
    }
}

/// Every deferred patch of every routine resolves to an instruction word.
pub open spec fn ops_ok(gl: Seq<u8>, rs: Seq<RoutineV>) -> bool {
    forall|i: int, j: int|
        0 <= i < rs.len() && 0 <= j < rs[i].post_ops.len() ==> (#[trigger] op_word(
            gl,
            rs,
            i,
            rs[i].post_ops[j],
        )).is_ok()
}

/// The constants and code of routines `0 .. i`, in push order.
pub open spec fn flat_routines(rs: Seq<RoutineV>, i: int) -> Seq<u8>
    decreases i,
{
    if i <= 0 {
        Seq::empty()
    } else {
        flat_routines(rs, i - 1) + rs[i - 1].constants + rs[i - 1].code
    }
}

/// The image before any patch is applied: the global pool, then every
/// routine's constants and code, with placeholders still in place.
pub open spec fn base_image(gl: Seq<u8>, rs: Seq<RoutineV>) -> Seq<u8> {
    gl + flat_routines(rs, rs.len() as int)
}

/// `img` after the first `j` patches of routine `i` are applied; a patch
/// that fails to resolve writes nothing.
pub open spec fn patch_ops(img: Seq<u8>, gl: Seq<u8>, rs: Seq<RoutineV>, i: int, j: int) -> Seq<u8>
    decreases j,
{
    if j <= 0 {
        img
    } else {
        let prev = patch_ops(img, gl, rs, i, j - 1);
        match op_word(gl, rs, i, rs[i].post_ops[j - 1]) {
            Ok(w) => patch4(prev, op_pos(gl, rs, i, rs[i].post_ops[j - 1]), w),
            Err(_) => prev,
        }
    }
}

/// `img` after all patches of routines `0 .. i` are applied, in push order.
pub open spec fn patch_routines(img: Seq<u8>, gl: Seq<u8>, rs: Seq<RoutineV>, i: int) -> Seq<u8>
    decreases i,
{
    if i <= 0 {
        img
    } else {
        patch_ops(
            patch_routines(img, gl, rs, i - 1),
            gl,
            rs,
            i - 1,
            rs[i - 1].post_ops.len() as int,
        )
    }
}

/// The finished image: the plain layout with every deferred patch resolved
/// in place.  It depends only on the pushed constants and routines, never on
/// the base address.
pub open spec fn jit_image(gl: Seq<u8>, rs: Seq<RoutineV>) -> Seq<u8> {
    patch_routines(base_image(gl, rs), gl, rs, rs.len() as int)
}

/// The flattened routines occupy exactly the laid-out sizes.
pub proof fn lemma_flat_len(rs: Seq<RoutineV>, i: int)
    requires
        i <= rs.len(),
    ensures
        flat_routines(rs, i).len() == start_of(rs, i),
    decreases i,
{
    if i > 0 {
        lemma_flat_len(rs, i - 1);
    } else {
        lemma_start_of_nonneg(rs, i);
        assert(start_of(rs, i) == 0);
    }
}

/// The mathematical model of an assembler.
pub ghost struct AsmV {
    pub finalizing: bool,
    pub constants: Seq<u8>,
    pub routines: Seq<RoutineV>,
    pub vtable: Seq<(Seq<char>, int)>,
    pub const_addr: int,
}

/// The global pool stays a whole number of 32-bit units and every pushed
/// routine is well-formed.
pub open spec fn layout_wf(gl: Seq<u8>, rs: Seq<RoutineV>) -> bool {
    &&& gl.len() % 4 == 0
    &&& forall|i: int| 0 <= i < rs.len() ==> (#[trigger] rs[i]).wf()
}

impl AsmV {
    /// The pushed constants and routines admit a layout.
    pub open spec fn wf(self) -> bool {
        layout_wf(self.constants, self.routines)
    }
}

/// The assembler: the global constant pool, the pushed routines, and — once
/// finalization has begun — the symbol table and the pool's base address.
pub struct Asm {
    pub finalizing: bool,
    pub constants: Vec<u8>,
    pub routines: Vec<Routine>,
    pub vtable: SymbolTable,
    pub const_addr: usize,
}

impl View for Asm {
    type V = AsmV;

    open spec fn view(&self) -> AsmV {
        AsmV {
            finalizing: self.finalizing,
            constants: self.constants@,
            routines: Seq::new(self.routines@.len(), |i: int| self.routines@[i]@),
            vtable: self.vtable@,
            const_addr: self.const_addr as int,
        }
    }
}

impl Default for Asm {
    /// An open assembler with no constants, no routines and no addresses.
    fn default() -> (a: Asm)
        ensures
            a@ == (AsmV {
                finalizing: false,
                constants: Seq::<u8>::empty(),
                routines: Seq::<RoutineV>::empty(),
                vtable: Seq::<(Seq<char>, int)>::empty(),
                const_addr: 0,
            }),
            a@.wf(),
    {
        let a = Asm {
            finalizing: false,
            constants: Vec::new(),
            routines: Vec::new(),
            vtable: SymbolTable::new(),
            const_addr: 0,
        };
        proof {
            assert(a@.routines =~= Seq::<RoutineV>::empty());
            assert(a@ == AsmV {
                finalizing: false,
                constants: Seq::<u8>::empty(),
                routines: Seq::<RoutineV>::empty(),
                vtable: Seq::<(Seq<char>, int)>::empty(),
                const_addr: 0,
            });
        }
        a
    }
}

impl Asm {
    /// Stores a 32-bit constant in the global pool; returns the constant's
    /// index, counted in 32-bit units.
    pub fn const_32(&mut self, value: u32) -> (index: usize)
        requires
            old(self)@.wf(),
        ensures
            final(self)@.wf(),
            final(self)@ == (AsmV {
                constants: old(self)@.constants + crate::raw::le_bytes(value),
                ..old(self)@
            }),
            4 * index == old(self)@.constants.len(),
    {
        let index = self.constants.len() / 4;
        crate::raw::push_u32_le(&mut self.constants, value);
        index
    }

    /// Stores a 64-bit constant in the global pool; returns the constant's
    /// index, counted in 32-bit units.
    pub fn const_64(&mut self, value: u64) -> (index: usize)
        requires
            old(self)@.wf(),
        ensures
            final(self)@.wf(),
            final(self)@ == (AsmV {
                constants: old(self)@.constants + crate::raw::le_bytes64(value),
                ..old(self)@
            }),
            4 * index == old(self)@.constants.len(),
    {
        let index = self.constants.len() / 4;
        crate::raw::push_u64_le(&mut self.constants, value);
        index
    }

    /// Takes ownership of a finished routine; it will be laid out after all
    /// previously pushed routines.
    pub fn push_routine(&mut self, routine: Routine)
        requires
            old(self)@.wf(),
            routine@.wf(),
        ensures
            final(self)@.wf(),
            final(self)@ == (AsmV {
                routines: old(self)@.routines.push(routine@),
                ..old(self)@
            }),
    {
        let ghost rv = routine@;
        self.routines.push(routine);
        proof {
            assert(self@.routines =~= old(self)@.routines.push(rv));
        }
    }

    /// The absolute base address of the global constant pool; available only
    /// once finalization has begun.
    pub fn global_const_address(&self) -> (r: Result<usize, AsmError>)
        ensures
            self@.finalizing ==> r == Ok::<usize, AsmError>(self.const_addr),
            !self@.finalizing ==> r == Err::<usize, AsmError>(AsmError::IllegalAccess),
    {
        if !self.finalizing {
            return Err(AsmError::IllegalAccess);
        }
        Ok(self.const_addr)
    }

    /// The address recorded for `label`, or nothing when no routine of that
    /// name was laid out; available only once finalization has begun.
    pub fn get_label_address(&self, label: &String) -> (r: Result<Option<usize>, AsmError>)
        ensures
            match r {
                Ok(Some(a)) => self@.finalizing && st_lookup(self@.vtable, label@) == Some(a as int),
                Ok(None) => self@.finalizing && st_lookup(self@.vtable, label@) is None,
                Err(e) => !self@.finalizing && e == AsmError::IllegalAccess,
            },
    {
        if !self.finalizing {
            return Err(AsmError::IllegalAccess);
        }
        Ok(self.vtable.lookup(label))
    }
}


// ---------------------------------------------------------------------------
// Applying the patches to the laid-out image.
// ---------------------------------------------------------------------------

/// Adding a multiple of the instruction width does not change an address's
/// alignment within an instruction word.
proof fn lemma_add_multiple_mod4(b: int, t: int)
    requires
        t % 4 == 0,
    ensures
        (b + t) % 4 == b % 4,
{
    vstd::arithmetic::div_mod::lemma_add_mod_noop(b, t, 4);
    vstd::arithmetic::div_mod::lemma_mod_twice(b, 4);
}

/// The facts the patching code needs about the placeholder of `op` in
/// routine `i`: its image position is in bounds and word-aligned relative to
/// the image start.
pub proof fn lemma_op_pos_facts(gl: Seq<u8>, rs: Seq<RoutineV>, i: int, op: OpV)
    requires
        gl.len() % 4 == 0,
        forall|k: int| 0 <= k < rs.len() ==> (#[trigger] rs[k]).wf(),
        0 <= i < rs.len(),
        op_in_code(op, rs[i].code.len() as int),
    ensures
        0 <= gl.len() + start_of(rs, i),
        op_pos(gl, rs, i, op) == entry_of(gl, rs, i) + op_offset(op),
        entry_of(gl, rs, i) % 4 == 0,
        op_pos(gl, rs, i, op) % 4 == 0,
        entry_of(gl, rs, i) >= 0,
        op_pos(gl, rs, i, op) + 4 <= image_size(gl, rs),
{
    lemma_start_of_nonneg(rs, i);
    lemma_start_of_mod4(rs, i);
    assert(rs[i].wf());
    assert(start_of(rs, i + 1) == start_of(rs, i) + rs[i].size());
    lemma_start_of_mono(rs, i + 1, rs.len() as int);
}

impl Op {
    /// Resolves this deferred patch against the finished layout and
    /// overwrites its placeholder in `bytes`; `abs_addr` is the absolute
    /// address at which the owning routine `i` starts and `code_offset` the
    /// length of that routine's local constants.
    pub fn process(
        &self,
        assembler: &Asm,
        abs_addr: usize,
        code_offset: usize,
        bytes: &mut Vec<u8>,
        Ghost(i): Ghost<int>,
    ) -> (r: Result<(), AsmError>)
        requires
            assembler@.wf(),
            assembler@.finalizing,
            assembler@.vtable == sym_table(
                assembler@.constants,
                assembler@.routines,
                assembler@.const_addr,
            ),
            0 <= i < assembler@.routines.len(),
            code_offset == assembler@.routines[i].constants.len(),
            abs_addr == assembler@.const_addr + assembler@.constants.len() + start_of(
                assembler@.routines,
                i,
            ),
            assembler@.const_addr + image_size(assembler@.constants, assembler@.routines)
                <= usize::MAX,
            op_in_code(self@, assembler@.routines[i].code.len() as int),
            old(bytes)@.len() == image_size(assembler@.constants, assembler@.routines),
        ensures
            match op_word(assembler@.constants, assembler@.routines, i, self@) {
                Ok(w) => r == Ok::<(), AsmError>(()) && final(bytes)@ == patch4(
                    old(bytes)@,
                    op_pos(assembler@.constants, assembler@.routines, i, self@),
                    w,
                ),
                Err(e) => r == Err::<(), AsmError>(e) && final(bytes)@ == old(bytes)@,
            },
    {
        let ghost gl = assembler@.constants;
        let ghost rs = assembler@.routines;
        let ghost base = assembler@.const_addr;
        proof {
            lemma_op_pos_facts(gl, rs, i, self@);
        }
        let base_addr = assembler.const_addr;
        match self {
            Op::Branch { insn_offset, label } => {
                process_branch(
                    assembler,
                    false,
                    abs_addr,
                    code_offset,
                    *insn_offset,
                    label,
                    bytes,
                    Ghost(i),
                )
            },
            Op::BranchWithLink { insn_offset, label } => {
                process_branch(
                    assembler,
                    true,
                    abs_addr,
                    code_offset,
                    *insn_offset,
                    label,
                    bytes,
                    Ghost(i),
                )
            },
            Op::LoadConst { insn_offset, dst_reg, const_offset } => {
                let in_routine = code_offset + *insn_offset;
                match raw::ldr_lit_encode(*dst_reg, *const_offset, in_routine / 4) {
                    None => Err(AsmError::ConstOutOfRange),
                    Some(w) => {
                        let pos = abs_addr - base_addr + in_routine;
                        raw::write_ne_32(bytes, pos, w);
                        Ok(())
                    },
                }
            },
            Op::LoadGlobalConst { insn_offset, dst_reg, const_offset } => {
                let pos = abs_addr - base_addr + code_offset + *insn_offset;
                match raw::ldr_lit_encode(*dst_reg, *const_offset, pos / 4) {
                    None => Err(AsmError::ConstOutOfRange),
                    Some(w) => {
                        raw::write_ne_32(bytes, pos, w);
                        Ok(())
                    },
                }
            },
        }
    }
}

/// Resolves one deferred branch: looks the label up, checks the displacement
/// against the 26-bit field, and overwrites the placeholder.
fn process_branch(
    assembler: &Asm,
    link: bool,
    abs_addr: usize,
    code_offset: usize,
    insn_offset: usize,
    label: &String,
    bytes: &mut Vec<u8>,
    Ghost(i): Ghost<int>,
) -> (r: Result<(), AsmError>)
    requires
        assembler@.wf(),
        assembler@.finalizing,
        assembler@.vtable == sym_table(
            assembler@.constants,
            assembler@.routines,
            assembler@.const_addr,
        ),
        0 <= i < assembler@.routines.len(),
        code_offset == assembler@.routines[i].constants.len(),
        abs_addr == assembler@.const_addr + assembler@.constants.len() + start_of(
            assembler@.routines,
            i,
        ),
        assembler@.const_addr + image_size(assembler@.constants, assembler@.routines) <= usize::MAX,
        insn_offset % 4 == 0,
        insn_offset + 4 <= assembler@.routines[i].code.len(),
        old(bytes)@.len() == image_size(assembler@.constants, assembler@.routines),
    ensures
        match branch_op_word(
            assembler@.constants,
            assembler@.routines,
            i,
            insn_offset as int,
            label@,
            link,
        ) {
            Ok(w) => r == Ok::<(), AsmError>(()) && final(bytes)@ == patch4(
                old(bytes)@,
                entry_of(assembler@.constants, assembler@.routines, i) + insn_offset,
                w,
            ),
            Err(e) => r == Err::<(), AsmError>(e) && final(bytes)@ == old(bytes)@,
        },
{
    let ghost gl = assembler@.constants;
    let ghost rs = assembler@.routines;
    let ghost base = assembler@.const_addr;
    let ghost op = OpV::Branch { insn_offset: insn_offset as int, label: label@ };
    proof {
        lemma_op_pos_facts(gl, rs, i, op);
        lemma_sym_lookup(gl, rs, base, label@);
    }
    let addr_opt = match assembler.get_label_address(label) {
        Ok(o) => o,
        Err(_) => unreached(),
    };
    match addr_opt {
        None => Err(AsmError::UndefinedLabel),
        Some(addr) => {
            let ghost k = first_labeled(rs, label@, 0)->Some_0;
            proof {
                lemma_first_labeled_bounds(rs, label@, 0);
                lemma_start_of_nonneg(rs, k);
                lemma_start_of_mod4(rs, k);
                assert(rs[k].wf());
                assert(addr == base + entry_of(gl, rs, k));
                lemma_add_multiple_mod4(base, entry_of(gl, rs, k));
                lemma_add_multiple_mod4(base, entry_of(gl, rs, i) + insn_offset);
            }
            let base_addr = assembler.const_addr;
            let insn_abs = abs_addr + code_offset + insn_offset;
            match raw::branch_encode(link, addr, insn_abs) {
                None => Err(AsmError::BranchOutOfRange),
                Some(w) => {
                    let pos = insn_abs - base_addr;
                    raw::write_ne_32(bytes, pos, w);
                    Ok(())
                },
            }
        },
    }
}



/// Appends every byte of `src` to `out`.
fn append_bytes(out: &mut Vec<u8>, src: &Vec<u8>)
    ensures
        final(out)@ == old(out)@ + src@,
{
    let n = src.len();
    for i in 0..n
        invariant
            n == src@.len(),
            out@ == old(out)@ + src@.take(i as int),
    {
        out.push(src[i]);
        proof {
            assert(out@ =~= old(out)@ + src@.take(i as int + 1));
        }
    }
    proof {
        assert(out@ =~= old(out)@ + src@);
    }
}

impl Routine {
    /// Resolves every deferred patch of this routine, laid out at absolute
    /// address `abs_addr` as routine `i`, stopping at the first failure.
    #[verifier::loop_isolation(false)]
    pub fn process(
        &self,
        assembler: &Asm,
        abs_addr: usize,
        code_offset: usize,
        bytes: &mut Vec<u8>,
        Ghost(i): Ghost<int>,
    ) -> (r: Result<(), AsmError>)
        requires
            assembler@.wf(),
            assembler@.finalizing,
            assembler@.vtable == sym_table(
                assembler@.constants,
                assembler@.routines,
                assembler@.const_addr,
            ),
            0 <= i < assembler@.routines.len(),
            self@ == assembler@.routines[i],
            code_offset == self@.constants.len(),
            abs_addr == assembler@.const_addr + assembler@.constants.len() + start_of(
                assembler@.routines,
                i,
            ),
            assembler@.const_addr + image_size(assembler@.constants, assembler@.routines)
                <= usize::MAX,
            old(bytes)@.len() == image_size(assembler@.constants, assembler@.routines),
        ensures
            ({
                let gl = assembler@.constants;
                let rs = assembler@.routines;
                match r {
                    Ok(()) => {
                        &&& final(bytes)@ == patch_ops(
                            old(bytes)@,
                            gl,
                            rs,
                            i,
                            rs[i].post_ops.len() as int,
                        )
                        &&& final(bytes)@.len() == old(bytes)@.len()
                        &&& forall|j: int|
                            0 <= j < rs[i].post_ops.len() ==> (#[trigger] op_word(
                                gl,
                                rs,
                                i,
                                rs[i].post_ops[j],
                            )).is_ok()
                    },
                    Err(e) => exists|j: int|
                        0 <= j < rs[i].post_ops.len() && op_word(
                            gl,
                            rs,
                            i,
                            #[trigger] rs[i].post_ops[j],
                        ) == Err::<u32, AsmError>(e),
                }
            }),
    {
        let ghost gl = assembler@.constants;
        let ghost rs = assembler@.routines;
        let m = self.post_ops.len();
        for j in 0..m
            invariant
                m == self.post_ops@.len(),
                bytes@ == patch_ops(old(bytes)@, gl, rs, i, j as int),
                bytes@.len() == image_size(gl, rs),
                forall|j2: int|
                    0 <= j2 < j ==> (#[trigger] op_word(gl, rs, i, rs[i].post_ops[j2])).is_ok(),
        {
            let ghost opv = rs[i].post_ops[j as int];
            proof {
                assert(rs[i].wf());
                assert(op_in_code(opv, rs[i].code.len() as int));
                lemma_op_pos_facts(gl, rs, i, opv);
            }
            let ghost pre = bytes@;
            let r = self.post_ops[j].process(assembler, abs_addr, code_offset, bytes, Ghost(i));
            match r {
                Ok(()) => {
                    proof {
                        let w = op_word(gl, rs, i, opv)->Ok_0;
                        assert(bytes@ == patch4(pre, op_pos(gl, rs, i, opv), w));
                        raw::lemma_patch4_len(pre, op_pos(gl, rs, i, opv), w);
                        assert(bytes@ == patch_ops(old(bytes)@, gl, rs, i, j as int + 1));
                    }
                },
                Err(e) => {
                    return Err(e);
                },
            }
        }
        Ok(())
    }
}

impl Asm {
    /// Lays the global pool and every routine out from address `base` into
    /// `out`, records each routine's entry in the symbol table, and then
    /// resolves every deferred patch in place.
    #[verifier::loop_isolation(false)]
    #[verifier::rlimit(50)]
    fn int_jit(&mut self, base: usize, out: &mut Vec<u8>) -> (r: Result<(), AsmError>)
        requires
            old(self)@.wf(),
            old(out)@.len() == 0,
            base + image_size(old(self)@.constants, old(self)@.routines) <= usize::MAX,
        ensures
            final(self)@.constants == old(self)@.constants,
            final(self)@.routines == old(self)@.routines,
            final(self)@.finalizing,
            final(self)@.const_addr == base as int,
            final(self)@.vtable == sym_table(
                old(self)@.constants,
                old(self)@.routines,
                base as int,
            ),
            ({
                let gl = old(self)@.constants;
                let rs = old(self)@.routines;
                match r {
                    Ok(()) => final(out)@ == jit_image(gl, rs) && ops_ok(gl, rs),
                    Err(e) => !ops_ok(gl, rs) && exists|i: int, j: int|
                        0 <= i < rs.len() && 0 <= j < rs[i].post_ops.len() && op_word(
                            gl,
                            rs,
                            i,
                            #[trigger] rs[i].post_ops[j],
                        ) == Err::<u32, AsmError>(e),
                }
            }),
    {
        let ghost gl = old(self)@.constants;
        let ghost rs = old(self)@.routines;
        self.finalizing = true;
        self.const_addr = base;
        self.vtable = SymbolTable::new();
        append_bytes(out, &self.constants);
        proof {
            assert(out@ =~= gl + flat_routines(rs, 0));
        }
        let n = self.routines.len();
        for idx in 0..n
            invariant
                self@.finalizing,
                self@.const_addr == base as int,
                self@.constants == gl,
                self@.routines == rs,
                self@.vtable =~= sym_table(gl, rs, base as int).take(idx as int),
                out@ == gl + flat_routines(rs, idx as int),
        {
            proof {
                lemma_flat_len(rs, idx as int);
                assert(start_of(rs, idx as int + 1) == start_of(rs, idx as int)
                    + rs[idx as int].size());
                lemma_start_of_mono(rs, idx as int + 1, rs.len() as int);
                lemma_start_of_nonneg(rs, idx as int);
            }
            append_bytes(out, &self.routines[idx].constants);
            let addr = base + out.len();
            let name = self.routines[idx].name.clone();
            self.vtable.push(name, addr);
            append_bytes(out, &self.routines[idx].code);
            proof {
                assert(out@ =~= gl + flat_routines(rs, idx as int + 1));
                assert(self@.vtable =~= sym_table(gl, rs, base as int).take(idx as int + 1));
            }
        }
        proof {
            assert(self@.vtable =~= sym_table(gl, rs, base as int));
            lemma_flat_len(rs, rs.len() as int);
            assert(out@.len() == image_size(gl, rs));
        }
        let mut pos: usize = self.constants.len();
        let n2 = self.routines.len();
        for idx in 0..n2
            invariant
                pos == gl.len() + start_of(rs, idx as int),
                out@ == patch_routines(base_image(gl, rs), gl, rs, idx as int),
                out@.len() == image_size(gl, rs),
                self@.finalizing,
                self@.const_addr == base as int,
                self@.constants == gl,
                self@.routines == rs,
                self@.vtable == sym_table(gl, rs, base as int),
                forall|i2: int, j2: int|
                    0 <= i2 < idx && 0 <= j2 < rs[i2].post_ops.len() ==> (#[trigger] op_word(
                        gl,
                        rs,
                        i2,
                        rs[i2].post_ops[j2],
                    )).is_ok(),
        {
            proof {
                assert(start_of(rs, idx as int + 1) == start_of(rs, idx as int)
                    + rs[idx as int].size());
                lemma_start_of_mono(rs, idx as int + 1, rs.len() as int);
                lemma_start_of_nonneg(rs, idx as int);
            }
            let abs = base + pos;
            let clen = self.routines[idx].constants.len();
            let ghost pre = out@;
            let res = self.routines[idx].process(self, abs, clen, out, Ghost(idx as int));
            match res {
                Ok(()) => {
                    proof {
                        assert(out@ == patch_ops(
                            pre,
                            gl,
                            rs,
                            idx as int,
                            rs[idx as int].post_ops.len() as int,
                        ));
                        assert(out@ == patch_routines(base_image(gl, rs), gl, rs, idx as int + 1));
                    }
                    pos = pos + clen + self.routines[idx].code.len();
                },
                Err(e) => {
                    return Err(e);
                },
            }
        }
        Ok(())
    }
}


impl Asm {
    /// Lays the whole set of routines out at base address `base` and returns
    /// the finished image together with the symbol table of absolute entry
    /// addresses.  Fails, writing nothing, when the image does not fit the
    /// address space, when a branch names an unknown label, or when a
    /// resolved displacement exceeds its field.
    pub fn jit_at(self, base: usize) -> (r: Result<(Vec<u8>, SymbolTable), AsmError>)
        requires
            self@.wf(),
        ensures
            r.is_ok() <==> (base + image_size(self@.constants, self@.routines) <= usize::MAX
                && ops_ok(self@.constants, self@.routines)),
            match r {
                Ok((blob, table)) => {
                    &&& blob@ == jit_image(self@.constants, self@.routines)
                    &&& table@ == sym_table(self@.constants, self@.routines, base as int)
                },
                Err(e) => (e == AsmError::ImageTooLarge && base + image_size(
                    self@.constants,
                    self@.routines,
                ) > usize::MAX) || (exists|i: int, j: int|
                    0 <= i < self@.routines.len() && 0 <= j < self@.routines[i].post_ops.len()
                        && op_word(
                        self@.constants,
                        self@.routines,
                        i,
                        #[trigger] self@.routines[i].post_ops[j],
                    ) == Err::<u32, AsmError>(e)),
            },
    {
        let ghost gl = self@.constants;
        let ghost rs = self@.routines;
        let mut total: usize = self.constants.len();
        let n = self.routines.len();
        #[verifier::loop_isolation(false)]
        for idx in 0..n
            invariant
                total == gl.len() + start_of(rs, idx as int),
        {
            proof {
                assert(start_of(rs, idx as int + 1) == start_of(rs, idx as int)
                    + rs[idx as int].size());
                lemma_start_of_mono(rs, idx as int + 1, rs.len() as int);
            }
            let clen = self.routines[idx].constants.len();
            let colen = self.routines[idx].code.len();
            let rsize = match clen.checked_add(colen) {
                Some(s) => s,
                None => {
                    return Err(AsmError::ImageTooLarge);
                },
            };
            total = match total.checked_add(rsize) {
                Some(t) => t,
                None => {
                    return Err(AsmError::ImageTooLarge);
                },
            };
        }
        if usize::MAX - total < base {
            return Err(AsmError::ImageTooLarge);
        }
        let mut a = self;
        let mut out: Vec<u8> = Vec::new();
        match a.int_jit(base, &mut out) {
            Ok(()) => Ok((out, a.vtable)),
            Err(e) => Err(e),
        }
    }

    /// Lays the whole set of routines out against a growable buffer anchored
    /// at the nominal base address zero: the returned blob holds exactly the
    /// bytes that an executable image would hold, and the table maps every
    /// routine name to its offset within the blob.  No memory of the host is
    /// touched, so this path is safe to run anywhere.
    pub fn virtual_jit(self) -> (r: Result<(Vec<u8>, SymbolTable), AsmError>)
        requires
            self@.wf(),
        ensures
            r.is_ok() <==> (image_size(self@.constants, self@.routines) <= usize::MAX && ops_ok(
                self@.constants,
                self@.routines,
            )),
            match r {
                Ok((blob, table)) => {
                    &&& blob@ == jit_image(self@.constants, self@.routines)
                    &&& table@ == sym_table(self@.constants, self@.routines, 0)
                },
                Err(e) => (e == AsmError::ImageTooLarge && image_size(
                    self@.constants,
                    self@.routines,
                ) > usize::MAX) || (exists|i: int, j: int|
                    0 <= i < self@.routines.len() && 0 <= j < self@.routines[i].post_ops.len()
                        && op_word(
                        self@.constants,
                        self@.routines,
                        i,
                        #[trigger] self@.routines[i].post_ops[j],
                    ) == Err::<u32, AsmError>(e)),
            },
    {
        self.jit_at(0)
    }
}


} // verus!
