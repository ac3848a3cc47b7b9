//! Shared use-def information for optimization passes.
//!
//! Built once per function and consumed read-only by the passes that need use
//! counts, use sites or definition locations. It is not maintained: a pass that
//! changes the function makes it stale.

use vstd::prelude::*;

use crate::ir::{BasicBlock, BlockId, Instruction, IrFunction, Operand, Value};

verus! {

/// The encoding of a definition that was not found.
pub const NONE_SENTINEL: u64 = 0xFFFF_FFFF_FFFF_FFFF;

/// The bit that marks a definition by a parameter.
pub const PARAM_BIT: u64 = 0x8000_0000_0000_0000;

// ── Definitions ─────────────────────────────────────────────────────────────

/// Compact definition location encoded as a single u64.
///
/// Encoding:
/// - `u64::MAX` = no definition found (gap, external, or unknown)
/// - `(1 << 63) | param_idx` = function parameter
/// - `(block_idx << 32) | inst_idx` = instruction (block_idx < 2^31)
#[derive(Debug, Clone, Copy, PartialEq, Eq, Structural)]
pub struct DefLoc(u64);

/// The encoding of a definition by an instruction.
pub open spec fn instruction_code(block: u32, inst: u32) -> u64 {
    ((block as u64) << 32) | (inst as u64)
}

/// The encoding of a definition by a parameter.
pub open spec fn parameter_code(idx: u32) -> u64 {
    PARAM_BIT | (idx as u64)
}

/// The block and the instruction that an encoding stands for.
pub open spec fn decoded(code: u64) -> Option<(u32, u32)> {
    if code == NONE_SENTINEL || code & PARAM_BIT != 0 {
        None
    } else {
        Some(((code >> 32) as u32, code as u32))
    }
}

impl DefLoc {
    /// The encoding.
    pub closed spec fn code(self) -> u64 {
        self.0
    }

    /// No definition found.
    pub fn none() -> (r: Self)
        ensures
            r.code() == NONE_SENTINEL,
    {
        DefLoc(NONE_SENTINEL)
    }

    /// Defined by an instruction at (block_idx, inst_idx).
    pub fn instruction(block: u32, inst: u32) -> (r: Self)
        ensures
            r.code() == instruction_code(block, inst),
            block < 0x8000_0000 ==> decoded(r.code()) == Some((block, inst)),
    {
        proof {
            if block < 0x8000_0000 {
                law_instruction_round_trip(block, inst);
            }
        }
        DefLoc(((block as u64) << 32) | (inst as u64))
    }

    /// Defined as a function parameter.
    pub fn parameter(idx: u32) -> (r: Self)
        ensures
            r.code() == parameter_code(idx),
            r.code() != NONE_SENTINEL,
            decoded(r.code()) is None,
    {
        proof {
            law_parameter_is_no_instruction(idx);
        }
        DefLoc(PARAM_BIT | (idx as u64))
    }

    /// Returns true if this is the "no definition" sentinel.
    pub fn is_none(self) -> (r: bool)
        ensures
            r == (self.code() == NONE_SENTINEL),
    {
        self.0 == NONE_SENTINEL
    }

    /// If this is an instruction definition, returns `(block_idx, inst_idx)`.
    pub fn as_instruction(self) -> (r: Option<(u32, u32)>)
        ensures
            r == decoded(self.code()),
    {
        if self.0 == NONE_SENTINEL || (self.0 & PARAM_BIT) != 0 {
            None
        } else {
            Some(((self.0 >> 32) as u32, self.0 as u32))
        }
    }
}

/// An instruction's location can be read back, in the first 2^31 blocks.
pub proof fn law_instruction_round_trip(block: u32, inst: u32)
    requires
        block < 0x8000_0000,
    ensures
        decoded(instruction_code(block, inst)) == Some((block, inst)),
        instruction_code(block, inst) != NONE_SENTINEL,
{
    let code = instruction_code(block, inst);
    assert(code != 0xFFFF_FFFF_FFFF_FFFFu64 && code & 0x8000_0000_0000_0000u64 == 0 && (code >> 32)
        as u32 == block && code as u32 == inst) by (bit_vector)
        requires
            block < 0x8000_0000u32,
            code == ((block as u64) << 32) | (inst as u64),
    ;
}

/// A parameter is neither an instruction nor an unknown definition.
pub proof fn law_parameter_is_no_instruction(idx: u32)
    ensures
        decoded(parameter_code(idx)) is None,
        parameter_code(idx) != NONE_SENTINEL,
{
    let code = parameter_code(idx);
    assert(code != 0xFFFF_FFFF_FFFF_FFFFu64 && code & 0x8000_0000_0000_0000u64 != 0) by (bit_vector)
        requires
            code == 0x8000_0000_0000_0000u64 | (idx as u64),
    ;
}

/// The encoding of the definition by an instruction at a place.
pub open spec fn site_code(inst: Instruction, block: u32, i: u32) -> u64 {
    match inst {
        Instruction::ParamRef { param_idx, .. } => parameter_code(param_idx as u32),
        _ => instruction_code(block, i),
    }
}

/// Where the first `n` instructions of a block define `v` last, or `before`.
pub open spec fn def_in_insts(
    insts: Seq<Instruction>,
    block: u32,
    n: nat,
    v: u32,
    before: u64,
) -> u64
    decreases n,
{
    if n == 0 {
        before
    } else if insts[n - 1].defines() == Some(Value(v)) {
        site_code(insts[n - 1], block, (n - 1) as u32)
    } else {
        def_in_insts(insts, block, (n - 1) as nat, v, before)
    }
}

/// Where the first `n` blocks define `v` last.
pub open spec fn def_in_blocks(blocks: Seq<BasicBlock>, n: nat, v: u32) -> u64
    decreases n,
{
    if n == 0 {
        NONE_SENTINEL
    } else {
        let insts = blocks[n - 1].instructions@;
        def_in_insts(
            insts,
            (n - 1) as u32,
            insts.len(),
            v,
            def_in_blocks(blocks, (n - 1) as nat, v),
        )
    }
}

// ── Uses ────────────────────────────────────────────────────────────────────

/// The instruction index that stands for a block's terminator.
pub const TERMINATOR_INDEX: u32 = 0xFFFF_FFFF;

/// Where a value is used.
#[derive(Debug, Clone, Copy, PartialEq, Eq, Structural)]
pub struct UseLoc {
    pub block_idx: u32,
    /// The index of the instruction, or `TERMINATOR_INDEX`.
    pub inst_idx: u32,
}

impl UseLoc {
    /// Is the value used by the block's terminator?
    pub fn is_terminator(&self) -> (r: bool)
        ensures
            r == (self.inst_idx == TERMINATOR_INDEX),
    {
        self.inst_idx == TERMINATOR_INDEX
    }
}

/// The values that the first `n` incoming operands of the phi `dest` use, but for
/// the phi itself.
pub open spec fn phi_used(incoming: Seq<(Operand, BlockId)>, dest: u32, n: nat) -> Seq<u32>
    decreases n,
{
    if n == 0 {
        Seq::empty()
    } else {
        let before = phi_used(incoming, dest, (n - 1) as nat);
        match incoming[n - 1].0 {
            Operand::Value(v) => if v.0 != dest {
                before.push(v.0)
            } else {
                before
            },
            Operand::Const(_) => before,
        }
    }
}

/// A phi's own value is never counted among the values that it uses.
pub proof fn law_phi_does_not_use_itself(incoming: Seq<(Operand, BlockId)>, dest: u32, n: nat)
    requires
        n <= incoming.len(),
    ensures
        !phi_used(incoming, dest, n).contains(dest),
    decreases n,
{
    if n > 0 {
        law_phi_does_not_use_itself(incoming, dest, (n - 1) as nat);
        let before = phi_used(incoming, dest, (n - 1) as nat);
        let used = phi_used(incoming, dest, n);
        if used.contains(dest) {
            let k = choose|k: int| 0 <= k < used.len() && used[k] == dest;
            assert(before[k] == dest);
            assert(before.contains(dest));
        }
    }
}

/// The values whose uses by an instruction count. A phi's uses of itself do not.
pub open spec fn counted(inst: Instruction) -> Seq<u32> {
    match inst {
        Instruction::Phi { dest, incoming, .. } => phi_used(incoming@, dest.0, incoming@.len()),
        _ => inst.used(),
    }
}

/// Each of `values`, used at `loc`.
pub open spec fn at_loc(values: Seq<u32>, loc: UseLoc) -> Seq<(u32, UseLoc)> {
    Seq::new(values.len(), |k: int| (values[k], loc))
}

/// The uses in the first `n` instructions of a block.
pub open spec fn uses_in_insts(insts: Seq<Instruction>, block: u32, n: nat) -> Seq<(u32, UseLoc)>
    decreases n,
{
    if n == 0 {
        Seq::empty()
    } else {
        uses_in_insts(insts, block, (n - 1) as nat) + at_loc(
            counted(insts[n - 1]),
            UseLoc { block_idx: block, inst_idx: (n - 1) as u32 },
        )
    }
}

/// The uses in the first `n` blocks.
pub open spec fn uses_in_blocks(blocks: Seq<BasicBlock>, n: nat) -> Seq<(u32, UseLoc)>
    decreases n,
{
    if n == 0 {
        Seq::empty()
    } else {
        let insts = blocks[n - 1].instructions@;
        uses_in_blocks(blocks, (n - 1) as nat) + uses_in_insts(insts, (n - 1) as u32, insts.len())
            + at_loc(
            blocks[n - 1].terminator.used(),
            UseLoc { block_idx: (n - 1) as u32, inst_idx: TERMINATOR_INDEX },
        )
    }
}

/// The uses of a function, in the order of its instructions.
pub open spec fn all_uses(func: IrFunction) -> Seq<(u32, UseLoc)> {
    uses_in_blocks(func.blocks@, func.blocks@.len())
}

/// The places of `v` among the first `n` uses.
pub open spec fn places(uses: Seq<(u32, UseLoc)>, v: u32, n: nat) -> Seq<UseLoc>
    decreases n,
{
    if n == 0 {
        Seq::empty()
    } else if uses[n - 1].0 == v {
        places(uses, v, (n - 1) as nat).push(uses[n - 1].1)
    } else {
        places(uses, v, (n - 1) as nat)
    }
}

/// The places where a function uses `v`.
pub open spec fn places_of(func: IrFunction, v: u32) -> Seq<UseLoc> {
    places(all_uses(func), v, all_uses(func).len())
}

// ── The information ─────────────────────────────────────────────────────────

/// Per-function use-def information, built once before each optimization
/// iteration and consumed read-only by passes.
///
/// All arrays are indexed by Value ID (`Value.0 as usize`). Length is
/// `max_value_id + 1`.
pub struct UseDefInfo {
    /// `use_count[v]` = number of times `Value(v)` appears as an operand.
    /// For Phi nodes, self-references are excluded. Terminator uses are included.
    pub use_count: Vec<u32>,
    /// `def_loc[v]` = where `Value(v)` is defined.
    pub def_loc: Vec<DefLoc>,
    /// `use_offsets[v]` = where the uses of `Value(v)` start in `use_sites`. One
    /// more entry than values.
    pub use_offsets: Vec<u32>,
    /// The uses, grouped by value.
    pub use_sites: Vec<UseLoc>,
}

impl UseDefInfo {
    /// There is an entry for each value, and its uses are among the sites.
    pub open spec fn wf(&self) -> bool {
        &&& self.def_loc@.len() == self.use_count@.len()
        &&& self.use_offsets@.len() == self.use_count@.len() + 1
        &&& forall|v: int|
            0 <= v < self.use_count@.len() ==> #[trigger] self.use_offsets@[v]
                <= self.use_offsets@[v + 1] <= self.use_sites@.len()
    }

    /// The uses of `v`.
    pub open spec fn sites(&self, v: u32) -> Seq<UseLoc> {
        if v < self.use_count@.len() {
            self.use_sites@.subrange(
                self.use_offsets@[v as int] as int,
                self.use_offsets@[v + 1] as int,
            )
        } else {
            Seq::empty()
        }
    }

    /// This is the information on a function.
    pub open spec fn describes(&self, func: IrFunction) -> bool {
        &&& self.wf()
        &&& self.use_count@.len() == func.max_value() + 1
        &&& forall|v: u32|
            v < self.use_count@.len() ==> #[trigger] self.use_count@[v as int] == places_of(
                func,
                v,
            ).len()
        &&& forall|v: u32|
            v < self.use_count@.len() ==> (#[trigger] self.def_loc@[v as int]).code()
                == def_in_blocks(func.blocks@, func.blocks@.len(), v)
        &&& forall|v: u32|
            v < self.use_count@.len() ==> #[trigger] self.sites(v) == places_of(func, v)
    }

    /// Build use-def information for a function.
    ///
    /// Cost: O(instructions * avg_operands), effectively O(n).
    pub fn build(func: &IrFunction) -> (r: Self)
        requires
            all_uses(*func).len() <= u32::MAX,
            func.max_value() < usize::MAX,
        ensures
            r.describes(*func),
    {
        let size = func.max_value_id() as usize + 1;
        let def_loc = find_definitions(func, size);
        let uses = collect_uses(func);
        let ghost all = uses@;
        let use_count = count_uses(&uses, size);
        let use_offsets = sum_counts(&uses, &use_count);
        let use_sites = group_uses(&uses, &use_count, &use_offsets);
        let r = UseDefInfo { use_count, def_loc, use_offsets, use_sites };
        proof {
            assert forall|v: int| 0 <= v < size implies #[trigger] r.use_offsets@[v]
                <= r.use_offsets@[v + 1] <= r.use_sites@.len() by {
                lemma_total(all, (v + 1) as nat, size as nat);
            }
            assert forall|v: u32| v < size implies #[trigger] r.sites(v) == places_of(*func, v) by {
                let p = places(all, v, all.len());
                assert(r.use_offsets@[v + 1] == total(all, (v + 1) as nat));
                assert(r.use_offsets@[v as int] == total(all, v as nat));
                assert(r.sites(v).len() == p.len());
                assert forall|j: int| 0 <= j < p.len() implies r.sites(v)[j] == p[j] by {
                    assert(grouped_at(all, all.len(), r.use_offsets@, r.use_sites@, v));
                }
                assert(r.sites(v) =~= p);
            }
        }
        r
    }

    /// Check if a value has no uses (use_count == 0).
    pub fn is_dead(&self, v: u32) -> (r: bool)
        ensures
            r == (v < self.use_count@.len() && self.use_count@[v as int] == 0),
    {
        let idx = v as usize;
        idx < self.use_count.len() && self.use_count[idx] == 0
    }

    /// Look up the instruction defining a value. Returns `None` if the value
    /// is a parameter, has no recorded definition, or is out of bounds.
    pub fn def_inst<'a>(&self, v: u32, func: &'a IrFunction) -> (r: Option<&'a Instruction>)
        ensures
            match r {
                Some(inst) => self.defining(v, *func) == Some(*inst),
                None => self.defining(v, *func) is None,
            },
    {
        let idx = v as usize;
        if idx >= self.def_loc.len() {
            return None;
        }
        match self.def_loc[idx].as_instruction() {
            Some((bi, ii)) => {
                let b = bi as usize;
                let i = ii as usize;
                if b < func.blocks.len() && i < func.blocks[b].instructions.len() {
                    Some(&func.blocks[b].instructions[i])
                } else {
                    None
                }
            },
            None => None,
        }
    }

    /// The instruction at the recorded definition of `v`.
    pub open spec fn defining(&self, v: u32, func: IrFunction) -> Option<Instruction> {
        if v < self.def_loc@.len() {
            match decoded(self.def_loc@[v as int].code()) {
                Some((b, i)) => if b < func.blocks@.len() && i
                    < func.blocks@[b as int].instructions@.len() {
                    Some(func.blocks@[b as int].instructions@[i as int])
                } else {
                    None
                },
                None => None,
            }
        } else {
            None
        }
    }

    /// The places where a value is used. A value out of bounds has none.
    pub fn uses_of(&self, v: u32) -> (r: &[UseLoc])
        requires
            self.wf(),
        ensures
            r@ == self.sites(v),
    {
        let idx = v as usize;
        let sites = self.use_sites.as_slice();
        if idx < self.use_count.len() {
            let from = self.use_offsets[idx] as usize;
            let to = self.use_offsets[idx + 1] as usize;
            vstd::slice::slice_subrange(sites, from, to)
        } else {
            let r = vstd::slice::slice_subrange(sites, 0, 0);
            assert(r@ =~= Seq::empty());
            r
        }
    }
}

fn find_definitions(func: &IrFunction, size: usize) -> (r: Vec<DefLoc>)
    requires
        size <= u32::MAX + 1,
    ensures
        r@.len() == size,
        forall|v: u32|
            v < size ==> (#[trigger] r@[v as int]).code() == def_in_blocks(
                func.blocks@,
                func.blocks@.len(),
                v,
            ),
{
    let mut def_loc: Vec<DefLoc> = Vec::new();
    while def_loc.len() < size
        invariant
            def_loc@.len() <= size,
            forall|v: int|
                0 <= v < def_loc@.len() ==> (#[trigger] def_loc@[v]).code() == NONE_SENTINEL,
        decreases size - def_loc@.len(),
    {
        def_loc.push(DefLoc::none());
    }
    let mut b: usize = 0;
    while b < func.blocks.len()
        invariant
            b <= func.blocks@.len(),
            def_loc@.len() == size,
            forall|v: u32|
                v < size ==> (#[trigger] def_loc@[v as int]).code() == def_in_blocks(
                    func.blocks@,
                    b as nat,
                    v,
                ),
        decreases func.blocks@.len() - b,
    {
        let insts = &func.blocks[b].instructions;
        let mut i: usize = 0;
        while i < insts.len()
            invariant
                b < func.blocks@.len(),
                insts@ == func.blocks@[b as int].instructions@,
                i <= insts@.len(),
                def_loc@.len() == size,
                forall|v: u32|
                    v < size ==> (#[trigger] def_loc@[v as int]).code() == def_in_insts(
                        insts@,
                        b as u32,
                        i as nat,
                        v,
                        def_in_blocks(func.blocks@, b as nat, v),
                    ),
            decreases insts@.len() - i,
        {
            if let Some(dest) = insts[i].dest() {
                let id = dest.0 as usize;
                if id < size {
                    def_loc[id] = match &insts[i] {
                        Instruction::ParamRef { param_idx, .. } => DefLoc::parameter(
                            *param_idx as u32,
                        ),
                        _ => DefLoc::instruction(b as u32, i as u32),
                    };
                }
            }
            i += 1;
        }
        b += 1;
    }
    def_loc
}

fn push_at(out: &mut Vec<(u32, UseLoc)>, values: &Vec<u32>, loc: UseLoc)
    ensures
        final(out)@ == old(out)@ + at_loc(values@, loc),
{
    let ghost before = out@;
    let mut k: usize = 0;
    assert(before + at_loc(values@.take(0), loc) =~= before);
    while k < values.len()
        invariant
            k <= values@.len(),
            out@ == before + at_loc(values@.take(k as int), loc),
        decreases values@.len() - k,
    {
        out.push((values[k], loc));
        k += 1;
        assert(out@ =~= before + at_loc(values@.take(k as int), loc));
    }
    assert(values@.take(k as int) =~= values@);
}

/// The values whose uses by an instruction count.
fn counted_uses(inst: &Instruction) -> (r: Vec<u32>)
    ensures
        r@ == counted(*inst),
{
    match inst {
        Instruction::Phi { dest, incoming, .. } => {
            let mut out: Vec<u32> = Vec::new();
            let mut k: usize = 0;
            while k < incoming.len()
                invariant
                    k <= incoming@.len(),
                    out@ == phi_used(incoming@, dest.0, k as nat),
                decreases incoming@.len() - k,
            {
                if let Operand::Value(v) = &incoming[k].0 {
                    if v.0 != dest.0 {
                        out.push(v.0);
                    }
                }
                k += 1;
            }
            out
        },
        _ => inst.used_values(),
    }
}

fn collect_uses(func: &IrFunction) -> (r: Vec<(u32, UseLoc)>)
    ensures
        r@ == all_uses(*func),
{
    let mut out: Vec<(u32, UseLoc)> = Vec::new();
    let mut b: usize = 0;
    while b < func.blocks.len()
        invariant
            b <= func.blocks@.len(),
            out@ == uses_in_blocks(func.blocks@, b as nat),
        decreases func.blocks@.len() - b,
    {
        let insts = &func.blocks[b].instructions;
        let ghost before = out@;
        let mut i: usize = 0;
        assert(before + uses_in_insts(insts@, b as u32, 0) =~= before);
        while i < insts.len()
            invariant
                i <= insts@.len(),
                out@ == before + uses_in_insts(insts@, b as u32, i as nat),
            decreases insts@.len() - i,
        {
            push_at(
                &mut out,
                &counted_uses(&insts[i]),
                UseLoc { block_idx: b as u32, inst_idx: i as u32 },
            );
            i += 1;
            assert(out@ =~= before + uses_in_insts(insts@, b as u32, i as nat));
        }
        push_at(
            &mut out,
            &func.blocks[b].terminator.used_values(),
            UseLoc { block_idx: b as u32, inst_idx: TERMINATOR_INDEX },
        );
        b += 1;
    }
    out
}

/// Number of uses of the first `v` values.
spec fn total(uses: Seq<(u32, UseLoc)>, v: nat) -> nat
    decreases v,
{
    if v == 0 {
        0
    } else {
        total(uses, (v - 1) as nat) + places(uses, (v - 1) as u32, uses.len()).len()
    }
}

/// The uses of some values take no more room than those of more values.
proof fn lemma_total(uses: Seq<(u32, UseLoc)>, v: nat, w: nat)
    requires
        v <= w,
    ensures
        total(uses, v) <= total(uses, w),
    decreases w,
{
    if v < w {
        lemma_total(uses, v, (w - 1) as nat);
    }
}

/// Number of uses of the first `v` values among the first `n` uses.
spec fn total_upto(uses: Seq<(u32, UseLoc)>, v: nat, n: nat) -> nat
    decreases v,
{
    if v == 0 {
        0
    } else {
        total_upto(uses, (v - 1) as nat, n) + places(uses, (v - 1) as u32, n).len()
    }
}

proof fn lemma_total_upto_step(uses: Seq<(u32, UseLoc)>, v: nat, n: nat)
    requires
        0 < n <= uses.len(),
        v <= u32::MAX + 1,
    ensures
        total_upto(uses, v, n) == total_upto(uses, v, (n - 1) as nat) + if uses[n - 1].0 < v {
            1nat
        } else {
            0nat
        },
    decreases v,
{
    if v > 0 {
        lemma_total_upto_step(uses, (v - 1) as nat, n);
    }
}

/// There are no more uses of some values than uses.
proof fn lemma_total_upto_bound(uses: Seq<(u32, UseLoc)>, v: nat, n: nat)
    requires
        n <= uses.len(),
        v <= u32::MAX + 1,
    ensures
        total_upto(uses, v, n) <= n,
        n == uses.len() ==> total_upto(uses, v, n) == total(uses, v),
    decreases n, v,
{
    if n > 0 {
        lemma_total_upto_bound(uses, v, (n - 1) as nat);
        lemma_total_upto_step(uses, v, n);
    } else if v > 0 {
        lemma_total_upto_bound(uses, (v - 1) as nat, n);
    }
    lemma_total_upto_full(uses, v);
}

proof fn lemma_total_upto_full(uses: Seq<(u32, UseLoc)>, v: nat)
    ensures
        total_upto(uses, v, uses.len()) == total(uses, v),
    decreases v,
{
    if v > 0 {
        lemma_total_upto_full(uses, (v - 1) as nat);
    }
}

fn count_uses(uses: &Vec<(u32, UseLoc)>, size: usize) -> (r: Vec<u32>)
    requires
        uses@.len() <= u32::MAX,
    ensures
        r@.len() == size,
        forall|v: u32|
            v < size ==> #[trigger] r@[v as int] == places(uses@, v, uses@.len()).len(),
{
    let mut count: Vec<u32> = Vec::new();
    while count.len() < size
        invariant
            count@.len() <= size,
            forall|v: int| 0 <= v < count@.len() ==> #[trigger] count@[v] == 0,
        decreases size - count@.len(),
    {
        count.push(0);
    }
    let mut k: usize = 0;
    while k < uses.len()
        invariant
            uses@.len() <= u32::MAX,
            k <= uses@.len(),
            count@.len() == size,
            forall|v: u32| v < size ==> #[trigger] count@[v as int] == places(uses@, v, k as nat).len(),
            forall|v: u32| v < size ==> #[trigger] count@[v as int] <= k,
        decreases uses@.len() - k,
    {
        let idx = uses[k].0 as usize;
        if idx < size {
            assert(count@[uses@[k as int].0 as int] <= k);
            count[idx] = count[idx] + 1;
        }
        k += 1;
    }
    count
}

fn sum_counts(uses: &Vec<(u32, UseLoc)>, count: &Vec<u32>) -> (r: Vec<u32>)
    requires
        uses@.len() <= u32::MAX,
        count@.len() <= u32::MAX + 1,
        forall|v: u32|
            v < count@.len() ==> #[trigger] count@[v as int] == places(uses@, v, uses@.len()).len(),
    ensures
        r@.len() == count@.len() + 1,
        forall|v: int| 0 <= v <= count@.len() ==> #[trigger] r@[v] == total(uses@, v as nat),
{
    let mut offsets: Vec<u32> = Vec::new();
    offsets.push(0);
    let mut sum: u32 = 0;
    let mut v: usize = 0;
    while v < count.len()
        invariant
            uses@.len() <= u32::MAX,
            count@.len() <= u32::MAX + 1,
            forall|x: u32|
                x < count@.len() ==> #[trigger] count@[x as int] == places(
                    uses@,
                    x,
                    uses@.len(),
                ).len(),
            v <= count@.len(),
            sum == total(uses@, v as nat),
            offsets@.len() == v + 1,
            forall|x: int| 0 <= x <= v ==> #[trigger] offsets@[x] == total(uses@, x as nat),
        decreases count@.len() - v,
    {
        proof {
            lemma_total_upto_bound(uses@, (v + 1) as nat, uses@.len());
            assert(count@[(v as u32) as int] == places(uses@, v as u32, uses@.len()).len());
        }
        sum = sum + count[v];
        offsets.push(sum);
        v += 1;
    }
    offsets
}

/// The uses of `v` among the first `n` uses are in their places.
spec fn grouped_at(
    uses: Seq<(u32, UseLoc)>,
    n: nat,
    offsets: Seq<u32>,
    sites: Seq<UseLoc>,
    v: u32,
) -> bool {
    forall|j: int|
        0 <= j < places(uses, v, n).len() ==> sites[offsets[v as int] + j] == #[trigger] places(
            uses,
            v,
            n,
        )[j]
}

proof fn lemma_places_grow(uses: Seq<(u32, UseLoc)>, v: u32, n: nat)
    requires
        n <= uses.len(),
    ensures
        places(uses, v, n).len() <= places(uses, v, uses.len()).len(),
    decreases uses.len() - n,
{
    if n < uses.len() {
        lemma_places_grow(uses, v, n + 1);
    }
}

#[verifier::rlimit(30)]
fn group_uses(uses: &Vec<(u32, UseLoc)>, count: &Vec<u32>, offsets: &Vec<u32>) -> (r: Vec<UseLoc>)
    requires
        uses@.len() <= u32::MAX,
        count@.len() <= u32::MAX + 1,
        offsets@.len() == count@.len() + 1,
        forall|v: int| 0 <= v <= count@.len() ==> #[trigger] offsets@[v] == total(uses@, v as nat),
    ensures
        r@.len() == total(uses@, count@.len()),
        forall|v: u32|
            v < count@.len() ==> #[trigger] grouped_at(uses@, uses@.len(), offsets@, r@, v),
{
    let size = count.len();
    let room = offsets[size] as usize;
    let mut sites: Vec<UseLoc> = Vec::new();
    while sites.len() < room
        invariant
            sites@.len() <= room,
        decreases room - sites@.len(),
    {
        sites.push(UseLoc { block_idx: 0, inst_idx: 0 });
    }
    let mut next: Vec<u32> = Vec::new();
    while next.len() < size
        invariant
            next@.len() <= size,
            offsets@.len() == size + 1,
            forall|v: int| 0 <= v < next@.len() ==> #[trigger] next@[v] == offsets@[v],
        decreases size - next@.len(),
    {
        next.push(offsets[next.len()]);
    }
    let mut k: usize = 0;
    while k < uses.len()
        invariant
            uses@.len() <= u32::MAX,
            k <= uses@.len(),
            size == count@.len() <= u32::MAX + 1,
            next@.len() == size,
            offsets@.len() == size + 1,
            sites@.len() == total(uses@, size as nat) == room,
            forall|v: int| 0 <= v <= size ==> #[trigger] offsets@[v] == total(uses@, v as nat),
            forall|v: u32|
                v < size ==> #[trigger] next@[v as int] == offsets@[v as int] + places(
                    uses@,
                    v,
                    k as nat,
                ).len(),
            forall|v: u32| v < size ==> #[trigger] grouped_at(uses@, k as nat, offsets@, sites@, v),
        decreases uses@.len() - k,
    {
        let (v, loc) = uses[k];
        let idx = v as usize;
        if idx < size {
            let ghost before = sites@;
            let ghost at = next@[v as int] as int;
            proof {
                lemma_places_grow(uses@, v, (k + 1) as nat);
                lemma_total(uses@, (v + 1) as nat, size as nat);
                assert(offsets@[v + 1] == total(uses@, (v + 1) as nat));
                assert(offsets@[v as int] == total(uses@, v as nat));
                assert(at < total(uses@, (v + 1) as nat));
                lemma_total_upto_bound(uses@, size as nat, uses@.len());
            }
            sites[next[idx] as usize] = loc;
            next[idx] = next[idx] + 1;
            proof {
                assert forall|w: u32| w < size implies #[trigger] grouped_at(
                    uses@,
                    (k + 1) as nat,
                    offsets@,
                    sites@,
                    w,
                ) by {
                    let p = places(uses@, w, (k + 1) as nat);
                    let q = places(uses@, w, k as nat);
                    assert(grouped_at(uses@, k as nat, offsets@, before, w));
                    assert(offsets@[w as int] == total(uses@, w as nat));
                    assert forall|j: int| 0 <= j < p.len() implies sites@[offsets@[w as int] + j]
                        == #[trigger] p[j] by {
                        if w == v {
                            if j < q.len() {
                                assert(p[j] == q[j]);
                                assert(before[offsets@[w as int] + j] == q[j]);
                            }
                        } else {
                            assert(p[j] == q[j]);
                            assert(before[offsets@[w as int] + j] == q[j]);
                            lemma_places_grow(uses@, w, k as nat);
                            lemma_total(uses@, (w + 1) as nat, size as nat);
                            assert(total(uses@, (w + 1) as nat) == total(uses@, w as nat) + places(
                                uses@,
                                w,
                                uses@.len(),
                            ).len());
                            if w < v {
                                lemma_total(uses@, (w + 1) as nat, v as nat);
                            } else {
                                lemma_total(uses@, (v + 1) as nat, w as nat);
                            }
                        }
                    }
                }
            }
        } else {
            assert forall|w: u32| w < size implies #[trigger] grouped_at(
                uses@,
                (k + 1) as nat,
                offsets@,
                sites@,
                w,
            ) by {
                assert(grouped_at(uses@, k as nat, offsets@, sites@, w));
                assert(places(uses@, w, (k + 1) as nat) == places(uses@, w, k as nat));
            }
        }
        k += 1;
    }
    sites
}

// ── Laws ────────────────────────────────────────────────────────────────────

/// The uses of each value stand together, in the order of the function: those of `v` from
/// `use_offsets[v]` up to `use_offsets[v + 1]`, as many as `use_count[v]` says.
pub proof fn law_uses_are_grouped(info: UseDefInfo, func: IrFunction, v: u32)
    requires
        info.describes(func),
        v <= func.max_value(),
    ensures
        info.use_offsets@.len() == func.max_value() + 2,
        info.use_count@.len() == func.max_value() + 1,
        info.use_offsets@[v as int] <= info.use_offsets@[v + 1] <= info.use_sites@.len(),
        info.use_sites@.subrange(
            info.use_offsets@[v as int] as int,
            info.use_offsets@[v + 1] as int,
        ) == places_of(func, v),
        info.use_offsets@[v + 1] - info.use_offsets@[v as int] == info.use_count@[v as int],
{
    assert(info.use_offsets@[v as int] <= info.use_offsets@[v + 1]);
    assert(info.sites(v) == places_of(func, v));
    assert(info.use_count@[v as int] == places_of(func, v).len());
}

/// A value is dead if and only if the function never uses it.
pub proof fn law_dead_means_unused(info: UseDefInfo, func: IrFunction, v: u32)
    requires
        info.describes(func),
        v <= func.max_value(),
    ensures
        (info.use_count@[v as int] == 0) == (forall|k: int|
            0 <= k < all_uses(func).len() ==> (#[trigger] all_uses(func)[k]).0 != v),
{
    lemma_no_places(all_uses(func), v, all_uses(func).len());
    assert(info.use_count@[v as int] == places_of(func, v).len());
}

proof fn lemma_no_places(uses: Seq<(u32, UseLoc)>, v: u32, n: nat)
    requires
        n <= uses.len(),
    ensures
        (places(uses, v, n).len() == 0) == (forall|k: int|
            0 <= k < n ==> (#[trigger] uses[k]).0 != v),
    decreases n,
{
    if n > 0 {
        lemma_no_places(uses, v, (n - 1) as nat);
        if places(uses, v, n).len() == 0 {
            assert forall|k: int| 0 <= k < n implies (#[trigger] uses[k]).0 != v by {
                if k == n - 1 {
                    assert(uses[n - 1].0 != v);
                }
            }
        } else {
            if uses[n - 1].0 != v {
                let k = choose|k: int| 0 <= k < n - 1 && (#[trigger] uses[k]).0 == v;
                assert(uses[k].0 == v);
            } else {
                assert(uses[n - 1].0 == v);
            }
        }
    }
}

/// A use is among the sites of its value, and a site of a value is a use of it.
pub proof fn law_sites_are_the_uses(info: UseDefInfo, func: IrFunction, v: u32, loc: UseLoc)
    requires
        info.describes(func),
        v <= func.max_value(),
    ensures
        info.sites(v).contains(loc) == all_uses(func).contains((v, loc)),
{
    let uses = all_uses(func);
    assert(info.sites(v) == places_of(func, v));
    lemma_places_contain(uses, v, loc, uses.len());
    assert(uses.take(uses.len() as int) =~= uses);
}

proof fn lemma_places_contain(uses: Seq<(u32, UseLoc)>, v: u32, loc: UseLoc, n: nat)
    requires
        n <= uses.len(),
    ensures
        places(uses, v, n).contains(loc) == uses.take(n as int).contains((v, loc)),
    decreases n,
{
    if n == 0 {
        assert(uses.take(0) =~= Seq::empty());
    } else {
        let m = (n - 1) as nat;
        lemma_places_contain(uses, v, loc, m);
        let p = places(uses, v, n);
        let q = places(uses, v, m);
        let a = uses.take(n as int);
        let b = uses.take(m as int);
        assert(a =~= b.push(uses[n - 1]));
        if b.contains((v, loc)) {
            let k = choose|k: int| 0 <= k < b.len() && b[k] == (v, loc);
            assert(a[k] == (v, loc));
            let j = choose|j: int| 0 <= j < q.len() && q[j] == loc;
            assert(p[j] == loc);
        } else if uses[n - 1] == (v, loc) {
            assert(a[n - 1] == (v, loc));
            assert(p[q.len() as int] == loc);
        } else {
            assert forall|k: int| 0 <= k < a.len() implies a[k] != (v, loc) by {
                if k < n - 1 {
                    assert(b[k] != (v, loc));
                }
            }
            assert forall|j: int| 0 <= j < p.len() implies p[j] != loc by {
                if j < q.len() {
                    assert(q[j] != loc);
                }
            }
        }
    }
}

/// The number of the value that an instruction defines.
pub open spec fn defined_id(inst: Instruction) -> u32 {
    match inst.defines() {
        Some(v) => v.0,
        None => 0,
    }
}

/// In a function of fewer than 2^31 blocks that defines each value once, the
/// recorded definition of a value is the instruction that defines it.
pub proof fn law_definition_is_found(info: UseDefInfo, func: IrFunction, b: int, i: int)
    requires
        info.describes(func),
        func.blocks@.len() <= 0x8000_0000,
        0 <= b < func.blocks@.len(),
        0 <= i < func.blocks@[b].instructions@.len() <= u32::MAX,
        func.blocks@[b].instructions@[i].defines() is Some,
        defined_id(func.blocks@[b].instructions@[i]) <= func.max_value(),
        !(func.blocks@[b].instructions@[i] is ParamRef),
        forall|x: int, y: int|
            #![trigger func.blocks@[x].instructions@[y]]
            0 <= x < func.blocks@.len() && 0 <= y < func.blocks@[x].instructions@.len()
                && func.blocks@[x].instructions@[y].defines()
                == func.blocks@[b].instructions@[i].defines() ==> x == b && y == i,
    ensures
        info.defining(defined_id(func.blocks@[b].instructions@[i]), func) == Some(
            func.blocks@[b].instructions@[i],
        ),
{
    let v = defined_id(func.blocks@[b].instructions@[i]);
    lemma_def_in_blocks(func, b, i, func.blocks@.len());
    law_instruction_round_trip(b as u32, i as u32);
    assert(info.def_loc@[v as int].code() == def_in_blocks(func.blocks@, func.blocks@.len(), v));
}

/// The `i`th instruction of block `b` defines `v`, and is no parameter.
pub open spec fn defines_at(func: IrFunction, b: int, i: int, v: u32) -> bool {
    &&& 0 <= b < func.blocks@.len()
    &&& 0 <= i < func.blocks@[b].instructions@.len()
    &&& func.blocks@[b].instructions@[i].defines() == Some(Value(v))
    &&& !(func.blocks@[b].instructions@[i] is ParamRef)
}

/// The recorded definition of a value is an instruction of the function that defines it and
/// is no parameter. So a parameter, a value that is not defined and one that is out of range
/// have none; and information of another function, which may name a place that is not there,
/// gives none for such a place.
pub proof fn law_only_definitions_are_found(info: UseDefInfo, func: IrFunction, v: u32)
    requires
        info.describes(func),
        func.blocks@.len() <= 0x8000_0000,
        forall|b: int|
            0 <= b < func.blocks@.len() ==> (#[trigger] func.blocks@[b]).instructions@.len()
                <= u32::MAX,
    ensures
        info.defining(v, func) matches Some(inst) ==> v <= func.max_value() && exists|
            b: int,
            i: int,
        | #[trigger]
            defines_at(func, b, i, v) && inst == func.blocks@[b].instructions@[i],
        v > func.max_value() ==> info.defining(v, func) is None,
        (forall|b: int, i: int| !(#[trigger] defines_at(func, b, i, v))) ==> info.defining(
            v,
            func,
        ) is None,
        forall|other: IrFunction|
            #![trigger info.defining(v, other)]
            v <= func.max_value() ==> (decoded(info.def_loc@[v as int].code()) matches Some((b, i))
                ==> (b >= other.blocks@.len() || i >= other.blocks@[b as int].instructions@.len())
                ==> info.defining(v, other) is None),
{
    if v <= func.max_value() {
        let code = def_in_blocks(func.blocks@, func.blocks@.len(), v);
        assert(info.def_loc@[v as int].code() == code);
        lemma_code_in_blocks(func, func.blocks@.len(), v);
        if code != NONE_SENTINEL {
            let (b, i) = choose|b: int, i: int| #[trigger] coded_at(func, b, i, v, code);
            let inst = func.blocks@[b].instructions@[i];
            if let Instruction::ParamRef { param_idx, .. } = inst {
                law_parameter_is_no_instruction(param_idx as u32);
            } else {
                assert(func.blocks@[b].instructions@.len() <= u32::MAX);
                law_instruction_round_trip(b as u32, i as u32);
                assert(defines_at(func, b, i, v));
            }
        }
    }
}

/// The `i`th instruction of block `b` defines `v`, and `code` stands for it.
spec fn coded_at(func: IrFunction, b: int, i: int, v: u32, code: u64) -> bool {
    &&& 0 <= b < func.blocks@.len()
    &&& 0 <= i < func.blocks@[b].instructions@.len()
    &&& func.blocks@[b].instructions@[i].defines() == Some(Value(v))
    &&& code == site_code(func.blocks@[b].instructions@[i], b as u32, i as u32)
}

proof fn lemma_code_in_insts(func: IrFunction, b: int, n: nat, v: u32, before: u64)
    requires
        0 <= b < func.blocks@.len(),
        n <= func.blocks@[b].instructions@.len(),
    ensures
        ({
            let code = def_in_insts(func.blocks@[b].instructions@, b as u32, n, v, before);
            code == before || exists|i: int| #[trigger] coded_at(func, b, i, v, code)
        }),
    decreases n,
{
    if n > 0 {
        let insts = func.blocks@[b].instructions@;
        if insts[n - 1].defines() == Some(Value(v)) {
            assert(coded_at(func, b, n - 1, v, def_in_insts(insts, b as u32, n, v, before)));
        } else {
            lemma_code_in_insts(func, b, (n - 1) as nat, v, before);
        }
    }
}

proof fn lemma_code_in_blocks(func: IrFunction, n: nat, v: u32)
    requires
        n <= func.blocks@.len(),
    ensures
        ({
            let code = def_in_blocks(func.blocks@, n, v);
            code == NONE_SENTINEL || exists|b: int, i: int| #[trigger]
                coded_at(func, b, i, v, code)
        }),
    decreases n,
{
    if n > 0 {
        let insts = func.blocks@[n - 1].instructions@;
        let before = def_in_blocks(func.blocks@, (n - 1) as nat, v);
        lemma_code_in_blocks(func, (n - 1) as nat, v);
        lemma_code_in_insts(func, n - 1, insts.len(), v, before);
    }
}

proof fn lemma_def_in_blocks(func: IrFunction, b: int, i: int, n: nat)
    requires
        b < n <= func.blocks@.len(),
        0 <= b,
        0 <= i < func.blocks@[b].instructions@.len(),
        func.blocks@[b].instructions@[i].defines() is Some,
        !(func.blocks@[b].instructions@[i] is ParamRef),
        forall|x: int, y: int|
            #![trigger func.blocks@[x].instructions@[y]]
            0 <= x < func.blocks@.len() && 0 <= y < func.blocks@[x].instructions@.len()
                && func.blocks@[x].instructions@[y].defines()
                == func.blocks@[b].instructions@[i].defines() ==> x == b && y == i,
    ensures
        def_in_blocks(func.blocks@, n, defined_id(func.blocks@[b].instructions@[i]))
            == instruction_code(b as u32, i as u32),
    decreases n,
{
    let v = defined_id(func.blocks@[b].instructions@[i]);
    let last = (n - 1) as nat;
    let insts = func.blocks@[n - 1].instructions@;
    let before = def_in_blocks(func.blocks@, last, v);
    if n - 1 == b {
        lemma_def_in_insts(insts, last as u32, insts.len(), v, before, i);
    } else {
        lemma_def_in_blocks(func, b, i, last);
        assert forall|y: int| 0 <= y < insts.len() implies (#[trigger] insts[y]).defines() != Some(
            Value(v),
        ) by {
            assert(func.blocks@[n - 1].instructions@[y] == insts[y]);
        }
        lemma_no_def_in_insts(insts, last as u32, insts.len(), v, before);
    }
}

proof fn lemma_no_def_in_insts(insts: Seq<Instruction>, block: u32, n: nat, v: u32, before: u64)
    requires
        n <= insts.len(),
        forall|y: int| 0 <= y < n ==> (#[trigger] insts[y]).defines() != Some(Value(v)),
    ensures
        def_in_insts(insts, block, n, v, before) == before,
    decreases n,
{
    if n > 0 {
        assert(insts[n - 1].defines() != Some(Value(v)));
        lemma_no_def_in_insts(insts, block, (n - 1) as nat, v, before);
    }
}

proof fn lemma_def_in_insts(
    insts: Seq<Instruction>,
    block: u32,
    n: nat,
    v: u32,
    before: u64,
    i: int,
)
    requires
        0 <= i < n <= insts.len(),
        insts[i].defines() == Some(Value(v)),
        !(insts[i] is ParamRef),
        forall|y: int| 0 <= y < insts.len() && (#[trigger] insts[y]).defines() == Some(Value(v)) ==> y
            == i,
    ensures
        def_in_insts(insts, block, n, v, before) == instruction_code(block, i as u32),
    decreases n,
{
    if n - 1 != i {
        assert(insts[n - 1].defines() != Some(Value(v)));
        lemma_def_in_insts(insts, block, (n - 1) as nat, v, before, i);
    }
}

} // verus!
