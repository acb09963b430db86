//! The register allocator: virtual registers to a fixed pool of physical
//! slots, first fit, no spilling.

use crate::error::CompileError;
use crate::gen_ir::{ints, Ir, IrView, Op, OpView};
use crate::gen_x86::NUM_REGS;
use std::collections::HashMap;
use vstd::prelude::*;

verus! {

broadcast use vstd::std_specs::hash::group_hash_axioms;

/// Virtual register indices below this bound can be allocated.
pub const REG_MAP_SIZE: usize = 8192;

/// What the allocator knows at one point of a function: which virtual
/// register is bound to which physical slot, and which slots are taken.
pub struct AllocState {
    pub bindings: Map<int, int>,
    pub in_use: Set<int>,
}

/// The state at the start of every function: nothing bound, nothing taken.
pub open spec fn fresh() -> AllocState {
    AllocState { bindings: Map::empty(), in_use: Set::empty() }
}

/// The lowest slot at or above `from` that is not in use, or `NUM_REGS`
/// when there is none.
pub open spec fn first_free(in_use: Set<int>, from: int) -> int
    decreases NUM_REGS - from,
{
    if from >= NUM_REGS {
        NUM_REGS as int
    } else if !in_use.contains(from) {
        from
    } else {
        first_free(in_use, from + 1)
    }
}

/// The slot for virtual register `v`: the one it is bound to, or else the
/// lowest free one, which is then bound to it and taken.
pub open spec fn alloc_reg(st: AllocState, v: int) -> Result<(AllocState, int), CompileError> {
    if !(0 <= v < REG_MAP_SIZE) {
        Err(CompileError::RegisterSpaceExhausted)
    } else if st.bindings.contains_key(v) {
        Ok((st, st.bindings[v]))
    } else {
        let slot = first_free(st.in_use, 0);
        if slot >= NUM_REGS {
            Err(CompileError::PhysicalRegistersExhausted)
        } else {
            Ok(
                (
                    AllocState {
                        bindings: st.bindings.insert(v, slot),
                        in_use: st.in_use.insert(slot),
                    },
                    slot,
                ),
            )
        }
    }
}

/// The end of virtual register `v`: its slot is free again and its binding
/// is dropped. Nothing changes when `v` has no binding.
pub open spec fn kill_reg(st: AllocState, v: int) -> AllocState {
    if st.bindings.contains_key(v) {
        AllocState {
            bindings: st.bindings.remove(v),
            in_use: st.in_use.remove(st.bindings[v]),
        }
    } else {
        st
    }
}

/// The slots for a list of virtual registers, allocated from left to right.
pub open spec fn alloc_regs(st: AllocState, regs: Seq<int>) -> Result<
    (AllocState, Seq<int>),
    CompileError,
>
    decreases regs.len(),
{
    if regs.len() == 0 {
        Ok((st, Seq::empty()))
    } else {
        match alloc_reg(st, regs.first()) {
            Err(e) => Err(e),
            Ok((st1, slot)) => match alloc_regs(st1, regs.drop_first()) {
                Err(e) => Err(e),
                Ok((st2, slots)) => Ok((st2, seq![slot] + slots)),
            },
        }
    }
}

/// One instruction after allocation, with the state that follows it. Every
/// register field is rewritten to its slot; a `Kill` frees its register and
/// becomes a `Nop`; nothing else changes.
pub open spec fn alloc_ins(st: AllocState, ir: IrView) -> Result<
    (AllocState, IrView),
    CompileError,
> {
    match ir.op {
        OpView::Imm | OpView::StoreArg | OpView::Load | OpView::Return => match alloc_reg(
            st,
            ir.lhs,
        ) {
            Err(e) => Err(e),
            Ok((st1, lhs)) => Ok((st1, IrView { op: ir.op, lhs: lhs, rhs: ir.rhs })),
        },
        OpView::Call(name, args) => match alloc_regs(st, args) {
            Err(e) => Err(e),
            Ok((st1, slots)) => match alloc_reg(st1, ir.lhs) {
                Err(e) => Err(e),
                Ok((st2, lhs)) => Ok(
                    (st2, IrView { op: OpView::Call(name, slots), lhs: lhs, rhs: ir.rhs }),
                ),
            },
        },
        OpView::Mov | OpView::Add | OpView::Sub | OpView::Mul | OpView::Div => match alloc_reg(
            st,
            ir.lhs,
        ) {
            Err(e) => Err(e),
            Ok((st1, lhs)) => match alloc_reg(st1, ir.rhs) {
                Err(e) => Err(e),
                Ok((st2, rhs)) => Ok((st2, IrView { op: ir.op, lhs: lhs, rhs: rhs })),
            },
        },
        OpView::Kill => Ok(
            (kill_reg(st, ir.lhs), IrView { op: OpView::Nop, lhs: ir.lhs, rhs: ir.rhs }),
        ),
        OpView::DefFun(_) | OpView::Nop => Ok((st, ir)),
    }
}

/// A list of instructions after allocation, in one forward pass from `st`.
pub open spec fn alloc_code(st: AllocState, code: Seq<IrView>) -> Result<
    (AllocState, Seq<IrView>),
    CompileError,
>
    decreases code.len(),
{
    if code.len() == 0 {
        Ok((st, Seq::empty()))
    } else {
        match alloc_ins(st, code.first()) {
            Err(e) => Err(e),
            Ok((st1, ir)) => match alloc_code(st1, code.drop_first()) {
                Err(e) => Err(e),
                Ok((st2, rest)) => Ok((st2, seq![ir] + rest)),
            },
        }
    }
}

/// One function after allocation. Every function starts from the fresh
/// state.
pub open spec fn alloc_function(code: Seq<IrView>) -> Result<Seq<IrView>, CompileError> {
    match alloc_code(fresh(), code) {
        Err(e) => Err(e),
        Ok((_, out)) => Ok(out),
    }
}

/// A program after allocation: each function on its own, in order. The
/// first failure is the failure of the whole.
pub open spec fn alloc_program(functions: Seq<Seq<IrView>>) -> Result<
    Seq<Seq<IrView>>,
    CompileError,
>
    decreases functions.len(),
{
    if functions.len() == 0 {
        Ok(Seq::empty())
    } else {
        match alloc_function(functions.first()) {
            Err(e) => Err(e),
            Ok(out) => match alloc_program(functions.drop_first()) {
                Err(e) => Err(e),
                Ok(rest) => Ok(seq![out] + rest),
            },
        }
    }
}

/// The register allocator.
pub struct RegAlloc {
    map: HashMap<isize, isize>,
    used: Vec<isize>,
}

impl View for RegAlloc {
    type V = AllocState;

    closed spec fn view(&self) -> AllocState {
        AllocState {
            bindings: Map::new(
                |k: int| isize::MIN <= k <= isize::MAX && self.map@.contains_key(k as isize),
                |k: int| self.map@[k as isize] as int,
            ),
            in_use: ints(self.used@).to_set(),
        }
    }
}

impl RegAlloc {
    /// An allocator in the fresh state.
    pub fn new() -> (ra: Self)
        ensures
            ra@ == fresh(),
    {
        let ra = RegAlloc { map: HashMap::new(), used: vec![] };
        proof {
            assert(ra@.bindings =~= Map::<int, int>::empty());
            assert(ints(ra.used@) =~= Seq::<int>::empty());
            assert(ra@.in_use =~= Set::<int>::empty());
        }
        ra
    }

    /// Whether `slot` is in use.
    fn is_used(&self, slot: isize) -> (b: bool)
        ensures
            b == self@.in_use.contains(slot as int),
    {
        let mut i: usize = 0;
        while i < self.used.len()
            invariant
                i <= self.used.len(),
                forall|j: int| 0 <= j < i ==> self.used@[j] != slot,
            decreases self.used.len() - i,
        {
            if self.used[i] == slot {
                assert(ints(self.used@)[i as int] == slot as int);
                return true;
            }
            i += 1;
        }
        false
    }

    /// The slot for virtual register `ir_reg`: the one it is bound to, or
    /// else the lowest free one. Fails, and changes nothing, when `ir_reg`
    /// is out of range or no slot is free.
    pub fn allocate(&mut self, ir_reg: isize) -> (r: Result<isize, CompileError>)
        ensures
            match r {
                Ok(slot) => alloc_reg(old(self)@, ir_reg as int) == Ok::<_, CompileError>(
                    (final(self)@, slot as int),
                ),
                Err(e) => alloc_reg(old(self)@, ir_reg as int) == Err::<(AllocState, int), _>(e)
                    && final(self)@ == old(self)@,
            },
    {
        if ir_reg < 0 || ir_reg >= 8192 {
            return Err(CompileError::RegisterSpaceExhausted);
        }
        if let Some(slot) = self.map.get(&ir_reg) {
            return Ok(*slot);
        }
        let mut i: isize = 0;
        while i < 7
            invariant
                0 <= i <= 7,
                0 <= ir_reg < 8192,
                *self == *old(self),
                !old(self).map@.contains_key(ir_reg),
                first_free(self@.in_use, 0) == first_free(self@.in_use, i as int),
            decreases 7 - i,
        {
            if !self.is_used(i) {
                self.used.push(i);
                self.map.insert(ir_reg, i);
                proof {
                    assert(ints(self.used@) =~= ints(old(self).used@).push(i as int));
                    ints(old(self).used@).lemma_push_to_set_commute(i as int);
                    assert(self@.in_use =~= old(self)@.in_use.insert(i as int));
                    assert(self@.bindings =~= old(self)@.bindings.insert(
                        ir_reg as int,
                        i as int,
                    ));
                }
                return Ok(i);
            }
            i += 1;
        }
        Err(CompileError::PhysicalRegistersExhausted)
    }

    /// Ends virtual register `ir_reg`: frees the slot bound to it and drops
    /// the binding.
    pub fn kill(&mut self, ir_reg: isize)
        ensures
            final(self)@ == kill_reg(old(self)@, ir_reg as int),
    {
        let bound = self.map.remove(&ir_reg);
        if let Some(slot) = bound {
            let mut kept: Vec<isize> = Vec::new();
            let mut i: usize = 0;
            while i < self.used.len()
                invariant
                    i <= self.used.len(),
                    self.used == old(self).used,
                    self.map@ == old(self).map@.remove(ir_reg),
                    forall|j: int| 0 <= j < kept@.len() ==> kept@[j] != slot,
                    forall|j: int|
                        0 <= j < kept@.len() ==> ints(self.used@).contains(
                            #[trigger] kept@[j] as int,
                        ),
                    forall|j: int|
                        0 <= j < i && self.used@[j] != slot ==> ints(kept@).contains(
                            #[trigger] self.used@[j] as int,
                        ),
                decreases self.used.len() - i,
            {
                let s = self.used[i];
                if s != slot {
                    let ghost before = kept@;
                    kept.push(s);
                    proof {
                        assert(ints(self.used@)[i as int] == s as int);
                        assert(ints(kept@)[before.len() as int] == s as int);
                        assert forall|j: int|
                            0 <= j < i + 1 && self.used@[j] != slot implies ints(kept@).contains(
                            #[trigger] self.used@[j] as int,
                        ) by {
                            if j < i {
                                let k = choose|k: int|
                                    0 <= k < ints(before).len() && ints(before)[k]
                                        == self.used@[j] as int;
                                assert(ints(kept@)[k] == self.used@[j] as int);
                            }
                        }
                    }
                }
                i += 1;
            }
            proof {
                assert forall|s: int|
                    ints(kept@).to_set().contains(s) <==> old(self)@.in_use.remove(
                        slot as int,
                    ).contains(s) by {
                    if ints(kept@).to_set().contains(s) {
                        let k = choose|k: int| 0 <= k < ints(kept@).len() && ints(kept@)[k] == s;
                        assert(kept@[k] as int == s);
                    }
                    if old(self)@.in_use.remove(slot as int).contains(s) {
                        let k = choose|k: int|
                            0 <= k < ints(self.used@).len() && ints(self.used@)[k] == s;
                        assert(self.used@[k] as int == s);
                    }
                }
            }
            self.used = kept;
            proof {
                assert(self@.in_use =~= old(self)@.in_use.remove(slot as int));
                assert(self@.bindings =~= old(self)@.bindings.remove(ir_reg as int));
            }
        } else {
            proof {
                assert(self@.bindings =~= old(self)@.bindings);
            }
        }
    }
}

/// The result `r` of a pass over what is left, behind what is already done.
spec fn behind<T>(done: Seq<T>, r: Result<(AllocState, Seq<T>), CompileError>) -> Result<
    (AllocState, Seq<T>),
    CompileError,
> {
    match r {
        Err(e) => Err(e),
        Ok((st, rest)) => Ok((st, done + rest)),
    }
}

/// The result `r` for the functions that are left, behind those already
/// done.
spec fn behind_functions(
    done: Seq<Seq<IrView>>,
    r: Result<Seq<Seq<IrView>>, CompileError>,
) -> Result<Seq<Seq<IrView>>, CompileError> {
    match r {
        Err(e) => Err(e),
        Ok(rest) => Ok(done + rest),
    }
}

impl RegAlloc {
    /// The slots for the argument registers of a call, from left to right.
    fn alloc_args(&mut self, args: &Vec<isize>) -> (r: Result<Vec<isize>, CompileError>)
        ensures
            match r {
                Ok(slots) => alloc_regs(old(self)@, ints(args@)) == Ok::<_, CompileError>(
                    (final(self)@, ints(slots@)),
                ),
                Err(e) => alloc_regs(old(self)@, ints(args@)) == Err::<(AllocState, Seq<int>), _>(
                    e,
                ),
            },
    {
        let ghost regs = ints(args@);
        let mut slots: Vec<isize> = Vec::new();
        let mut i: usize = 0;
        proof {
            assert(regs.skip(0) =~= regs);
            assert(ints(slots@) =~= Seq::<int>::empty());
            assert(behind(ints(slots@), alloc_regs(self@, regs)) =~~= alloc_regs(self@, regs));
        }
        while i < args.len()
            invariant
                i <= args.len(),
                regs == ints(args@),
                alloc_regs(old(self)@, regs) == behind(
                    ints(slots@),
                    alloc_regs(self@, regs.skip(i as int)),
                ),
            decreases args.len() - i,
        {
            let ghost before = self@;
            let ghost done = ints(slots@);
            proof {
                assert(regs.skip(i as int).first() == args@[i as int] as int);
                assert(regs.skip(i as int).drop_first() =~= regs.skip(i + 1));
            }
            match self.allocate(args[i]) {
                Err(e) => {
                    return Err(e);
                },
                Ok(slot) => {
                    slots.push(slot);
                    proof {
                        assert(ints(slots@) =~= done.push(slot as int));
                        let rest = alloc_regs(self@, regs.skip(i + 1));
                        match rest {
                            Err(e) => {},
                            Ok((st2, more)) => {
                                assert(done + (seq![slot as int] + more) =~= done.push(
                                    slot as int,
                                ) + more);
                            },
                        }
                    }
                },
            }
            i += 1;
        }
        proof {
            assert(regs.skip(i as int) =~= Seq::<int>::empty());
            assert(ints(slots@) + Seq::<int>::empty() =~= ints(slots@));
        }
        Ok(slots)
    }

    /// One instruction after allocation. Rewrites every register field to
    /// its slot; a `Kill` frees its register and becomes a `Nop`.
    pub fn reg_alloc(&mut self, ir: Ir) -> (r: Result<Ir, CompileError>)
        ensures
            match r {
                Ok(out) => alloc_ins(old(self)@, ir@) == Ok::<_, CompileError>(
                    (final(self)@, out@),
                ),
                Err(e) => alloc_ins(old(self)@, ir@) == Err::<(AllocState, IrView), _>(e),
            },
    {
        let Ir { op, lhs, rhs } = ir;
        match op {
            Op::Imm | Op::StoreArg | Op::Load | Op::Return => {
                match self.allocate(lhs) {
                    Err(e) => Err(e),
                    Ok(a) => Ok(Ir::new(op, a, rhs)),
                }
            },
            Op::Call(name, args) => {
                match self.alloc_args(&args) {
                    Err(e) => Err(e),
                    Ok(slots) => match self.allocate(lhs) {
                        Err(e) => Err(e),
                        Ok(a) => Ok(Ir::new(Op::Call(name, slots), a, rhs)),
                    },
                }
            },
            Op::Mov | Op::Add | Op::Sub | Op::Mul | Op::Div => {
                match self.allocate(lhs) {
                    Err(e) => Err(e),
                    Ok(a) => match self.allocate(rhs) {
                        Err(e) => Err(e),
                        Ok(b) => Ok(Ir::new(op, a, b)),
                    },
                }
            },
            Op::Kill => {
                self.kill(lhs);
                Ok(Ir::new(Op::Nop, lhs, rhs))
            },
            Op::DefFun(name) => Ok(Ir::new(Op::DefFun(name), lhs, rhs)),
            Op::Nop => Ok(Ir::new(Op::Nop, lhs, rhs)),
        }
    }

    /// Forgets every binding and frees every slot.
    fn reset(&mut self)
        ensures
            final(self)@ == fresh(),
    {
        self.map.clear();
        self.used.clear();
        proof {
            assert(self@.bindings =~= Map::<int, int>::empty());
            assert(ints(self.used@) =~= Seq::<int>::empty());
            assert(self@.in_use =~= Set::<int>::empty());
        }
    }

    /// One function after allocation, starting from the fresh state,
    /// whatever the allocator held before. The allocator is left in the
    /// state behind the last instruction.
    pub fn run_function(&mut self, irv: Vec<Ir>) -> (r: Result<Vec<Ir>, CompileError>)
        ensures
            match r {
                Ok(v) => alloc_function(irv.deep_view()) == Ok::<_, CompileError>(v.deep_view())
                    && alloc_code(fresh(), irv.deep_view()) == Ok::<_, CompileError>(
                    (final(self)@, v.deep_view()),
                ),
                Err(e) => alloc_function(irv.deep_view()) == Err::<Seq<IrView>, _>(e),
            },
    {
        let ghost code = irv.deep_view();
        self.reset();
        let mut v: Vec<Ir> = Vec::new();
        proof {
            assert(code.skip(0) =~= code);
            assert(v.deep_view() =~= Seq::<IrView>::empty());
            assert(behind(v.deep_view(), alloc_code(self@, code)) =~~= alloc_code(self@, code));
        }
        for ir in it: irv
            invariant
                code == irv.deep_view(),
                it.seq() == irv@,
                alloc_code(fresh(), code) == behind(
                    v.deep_view(),
                    alloc_code(self@, code.skip(it.index() as int)),
                ),
        {
            let ghost i = it.index() as int;
            let ghost done = v.deep_view();
            proof {
                assert(code.skip(i).first() == ir@);
                assert(code.skip(i).drop_first() =~= code.skip(i + 1));
            }
            match self.reg_alloc(ir) {
                Err(e) => {
                    return Err(e);
                },
                Ok(out) => {
                    v.push(out);
                    proof {
                        assert(v.deep_view() =~= done.push(out@));
                        let rest = alloc_code(self@, code.skip(i + 1));
                        match rest {
                            Err(e) => {},
                            Ok((st2, more)) => {
                                assert(done + (seq![out@] + more) =~= done.push(out@) + more);
                            },
                        }
                    }
                },
            }
        }
        proof {
            assert(code.skip(code.len() as int) =~= Seq::<IrView>::empty());
            assert(v.deep_view() + Seq::<IrView>::empty() =~= v.deep_view());
        }
        Ok(v)
    }

    /// A program after allocation: each function on its own, in order, from
    /// the fresh state. Fails, with no output, at the first register that
    /// cannot be allocated. The allocator is left in the fresh state.
    pub fn run(&mut self, irvv: Vec<Vec<Ir>>) -> (r: Result<Vec<Vec<Ir>>, CompileError>)
        ensures
            match r {
                Ok(vv) => alloc_program(irvv.deep_view()) == Ok::<_, CompileError>(
                    vv.deep_view(),
                ),
                Err(e) => alloc_program(irvv.deep_view()) == Err::<Seq<Seq<IrView>>, _>(e),
            },
            final(self)@ == fresh(),
    {
        let ghost functions = irvv.deep_view();
        let mut vv: Vec<Vec<Ir>> = Vec::new();
        proof {
            assert(functions.skip(0) =~= functions);
            assert(vv.deep_view() =~= Seq::<Seq<IrView>>::empty());
            assert(behind_functions(vv.deep_view(), alloc_program(functions)) =~~= alloc_program(
                functions,
            ));
        }
        for irv in it: irvv
            invariant
                functions == irvv.deep_view(),
                it.seq() == irvv@,
                alloc_program(functions) == behind_functions(
                    vv.deep_view(),
                    alloc_program(functions.skip(it.index() as int)),
                ),
        {
            let ghost f = it.index() as int;
            let ghost done = vv.deep_view();
            proof {
                assert(functions.skip(f).first() == irv.deep_view());
                assert(functions.skip(f).drop_first() =~= functions.skip(f + 1));
            }
            match self.run_function(irv) {
                Err(e) => {
                    self.reset();
                    return Err(e);
                },
                Ok(v) => {
                    vv.push(v);
                    proof {
                        assert(vv.deep_view() =~= done.push(v.deep_view()));
                        let rest = alloc_program(functions.skip(f + 1));
                        match rest {
                            Err(e) => {},
                            Ok(more) => {
                                assert(done + (seq![v.deep_view()] + more) =~= done.push(
                                    v.deep_view(),
                                ) + more);
                            },
                        }
                    }
                },
            }
        }
        proof {
            assert(functions.skip(functions.len() as int) =~= Seq::<Seq<IrView>>::empty());
            assert(vv.deep_view() + Seq::<Seq<IrView>>::empty() =~= vv.deep_view());
        }
        self.reset();
        Ok(vv)
    }
}

/// `v` is bound to slot `s`.
pub open spec fn bound_to(st: AllocState, v: int, s: int) -> bool {
    st.bindings.contains_key(v) && st.bindings[v] == s
}

/// The invariant of the allocator: the slots in use are slots of the pool,
/// they are exactly the slots that some virtual register is bound to, and
/// no two virtual registers are bound to the same slot.
pub open spec fn well_formed(st: AllocState) -> bool {
    &&& forall|s: int| st.in_use.contains(s) ==> 0 <= s < NUM_REGS
    &&& forall|v: int, s: int| #[trigger] bound_to(st, v, s) ==> st.in_use.contains(s)
    &&& forall|s: int| st.in_use.contains(s) ==> exists|v: int| #[trigger] bound_to(st, v, s)
    &&& forall|v: int, w: int, s: int|
        #[trigger] bound_to(st, v, s) && #[trigger] bound_to(st, w, s) ==> v == w
}

/// `slot` is the first fit: it is free and every slot below it is in use.
pub open spec fn is_first_fit(in_use: Set<int>, slot: int) -> bool {
    &&& 0 <= slot < NUM_REGS
    &&& !in_use.contains(slot)
    &&& forall|s: int| 0 <= s < slot ==> in_use.contains(s)
}

/// The scan from `from` upwards stops at the first free slot at or above
/// `from`, and runs to the end of the pool only when there is none.
pub proof fn lemma_first_free(in_use: Set<int>, from: int)
    requires
        0 <= from <= NUM_REGS,
    ensures
        from <= first_free(in_use, from) <= NUM_REGS,
        first_free(in_use, from) < NUM_REGS ==> !in_use.contains(first_free(in_use, from)),
        forall|s: int| from <= s < first_free(in_use, from) ==> in_use.contains(s),
    decreases NUM_REGS - from,
{
    if from < NUM_REGS && in_use.contains(from) {
        lemma_first_free(in_use, from + 1);
    }
}

/// A new virtual register gets the first fit, and fails for want of a slot
/// exactly when every slot of the pool is in use: it never takes a slot
/// that is in use.
pub proof fn lemma_new_register_gets_first_fit(st: AllocState, v: int)
    requires
        0 <= v < REG_MAP_SIZE,
        !st.bindings.contains_key(v),
    ensures
        match alloc_reg(st, v) {
            Ok((st1, slot)) => is_first_fit(st.in_use, slot) && st1.bindings == st.bindings.insert(
                v,
                slot,
            ) && st1.in_use == st.in_use.insert(slot),
            Err(e) => e == CompileError::PhysicalRegistersExhausted && forall|s: int|
                0 <= s < NUM_REGS ==> st.in_use.contains(s),
        },
{
    lemma_first_free(st.in_use, 0);
}

/// There is only one first fit.
pub proof fn lemma_first_fit_unique(in_use: Set<int>, s1: int, s2: int)
    requires
        is_first_fit(in_use, s1),
        is_first_fit(in_use, s2),
    ensures
        s1 == s2,
{
}

/// The fresh state is well formed.
pub proof fn lemma_fresh_well_formed()
    ensures
        well_formed(fresh()),
{
}

/// Allocating a register keeps the state well formed, and the slot it
/// gives is a slot of the pool that the register is then bound to.
pub proof fn lemma_alloc_reg_well_formed(st: AllocState, v: int)
    requires
        well_formed(st),
        alloc_reg(st, v) is Ok,
    ensures
        well_formed(alloc_reg(st, v)->Ok_0.0),
        0 <= alloc_reg(st, v)->Ok_0.1 < NUM_REGS,
        bound_to(alloc_reg(st, v)->Ok_0.0, v, alloc_reg(st, v)->Ok_0.1),
{
    let (st1, slot) = alloc_reg(st, v)->Ok_0;
    if st.bindings.contains_key(v) {
        assert(bound_to(st, v, slot));
    } else {
        lemma_first_free(st.in_use, 0);
        assert forall|w: int, s: int| #[trigger] bound_to(st1, w, s) implies st1.in_use.contains(
            s,
        ) by {
            if w != v {
                assert(bound_to(st, w, s));
            }
        }
        assert forall|s: int| st1.in_use.contains(s) implies exists|w: int| #[trigger]
            bound_to(st1, w, s) by {
            if s == slot {
                assert(bound_to(st1, v, s));
            } else {
                let w = choose|w: int| #[trigger] bound_to(st, w, s);
                assert(bound_to(st1, w, s));
            }
        }
        assert forall|w1: int, w2: int, s: int| #[trigger]
            bound_to(st1, w1, s) && #[trigger] bound_to(st1, w2, s) implies w1 == w2 by {
            if w1 != v {
                assert(bound_to(st, w1, s));
            }
            if w2 != v {
                assert(bound_to(st, w2, s));
            }
        }
    }
}

/// Ending a register keeps the state well formed.
pub proof fn lemma_kill_reg_well_formed(st: AllocState, v: int)
    requires
        well_formed(st),
    ensures
        well_formed(kill_reg(st, v)),
{
    let st1 = kill_reg(st, v);
    if st.bindings.contains_key(v) {
        let freed = st.bindings[v];
        assert(bound_to(st, v, freed));
        assert forall|w: int, s: int| #[trigger] bound_to(st1, w, s) implies st1.in_use.contains(
            s,
        ) by {
            assert(bound_to(st, w, s));
        }
        assert forall|s: int| st1.in_use.contains(s) implies exists|w: int| #[trigger]
            bound_to(st1, w, s) by {
            let w = choose|w: int| #[trigger] bound_to(st, w, s);
            assert(bound_to(st1, w, s));
        }
        assert forall|w1: int, w2: int, s: int| #[trigger]
            bound_to(st1, w1, s) && #[trigger] bound_to(st1, w2, s) implies w1 == w2 by {
            assert(bound_to(st, w1, s));
            assert(bound_to(st, w2, s));
        }
    }
}

/// Allocating a list of registers keeps the state well formed and gives
/// one slot of the pool for each.
pub proof fn lemma_alloc_regs_well_formed(st: AllocState, regs: Seq<int>)
    requires
        well_formed(st),
        alloc_regs(st, regs) is Ok,
    ensures
        well_formed(alloc_regs(st, regs)->Ok_0.0),
        alloc_regs(st, regs)->Ok_0.1.len() == regs.len(),
        forall|i: int|
            0 <= i < regs.len() ==> 0 <= #[trigger] alloc_regs(st, regs)->Ok_0.1[i] < NUM_REGS,
    decreases regs.len(),
{
    if regs.len() > 0 {
        lemma_alloc_reg_well_formed(st, regs.first());
        let (st1, slot) = alloc_reg(st, regs.first())->Ok_0;
        lemma_alloc_regs_well_formed(st1, regs.drop_first());
    }
}

/// What allocation makes of one instruction: a `Kill` becomes a `Nop`, and
/// any other instruction keeps its operation and everything that is not a
/// register.
pub open spec fn allocated_from(before: IrView, after: IrView) -> bool {
    match before.op {
        OpView::Kill => after == (IrView { op: OpView::Nop, lhs: before.lhs, rhs: before.rhs }),
        OpView::DefFun(_) | OpView::Nop => after == before,
        OpView::Call(name, args) => {
            &&& after.op matches OpView::Call(callee, slots)
            &&& callee == name
            &&& slots.len() == args.len()
            &&& after.rhs == before.rhs
        },
        OpView::Imm | OpView::StoreArg | OpView::Load | OpView::Return => {
            after.op == before.op && after.rhs == before.rhs
        },
        OpView::Mov | OpView::Add | OpView::Sub | OpView::Mul | OpView::Div => {
            after.op == before.op
        },
    }
}

/// Whether every register that `ir` names is a slot of the pool.
pub open spec fn within_pool(ir: IrView) -> bool {
    match ir.op {
        OpView::Kill | OpView::DefFun(_) | OpView::Nop => true,
        OpView::Call(_, slots) => {
            &&& 0 <= ir.lhs < NUM_REGS
            &&& forall|i: int| 0 <= i < slots.len() ==> 0 <= #[trigger] slots[i] < NUM_REGS
        },
        OpView::Imm | OpView::StoreArg | OpView::Load | OpView::Return => 0 <= ir.lhs < NUM_REGS,
        OpView::Mov | OpView::Add | OpView::Sub | OpView::Mul | OpView::Div => {
            0 <= ir.lhs < NUM_REGS && 0 <= ir.rhs < NUM_REGS
        },
    }
}

/// Allocating one instruction keeps the state well formed; the instruction
/// keeps its shape and names only slots of the pool.
pub proof fn lemma_alloc_ins_well_formed(st: AllocState, ir: IrView)
    requires
        well_formed(st),
        alloc_ins(st, ir) is Ok,
    ensures
        well_formed(alloc_ins(st, ir)->Ok_0.0),
        allocated_from(ir, alloc_ins(st, ir)->Ok_0.1),
        within_pool(alloc_ins(st, ir)->Ok_0.1),
{
    match ir.op {
        OpView::Imm | OpView::StoreArg | OpView::Load | OpView::Return => {
            lemma_alloc_reg_well_formed(st, ir.lhs);
        },
        OpView::Call(name, args) => {
            lemma_alloc_regs_well_formed(st, args);
            lemma_alloc_reg_well_formed(alloc_regs(st, args)->Ok_0.0, ir.lhs);
        },
        OpView::Mov | OpView::Add | OpView::Sub | OpView::Mul | OpView::Div => {
            lemma_alloc_reg_well_formed(st, ir.lhs);
            lemma_alloc_reg_well_formed(alloc_reg(st, ir.lhs)->Ok_0.0, ir.rhs);
        },
        OpView::Kill => {
            lemma_kill_reg_well_formed(st, ir.lhs);
        },
        OpView::DefFun(_) | OpView::Nop => {},
    }
}

/// A pass over a list of instructions keeps the state well formed. The
/// list keeps its length; each instruction keeps its place and its shape,
/// and names only slots of the pool.
pub proof fn lemma_alloc_code_well_formed(st: AllocState, code: Seq<IrView>)
    requires
        well_formed(st),
        alloc_code(st, code) is Ok,
    ensures
        well_formed(alloc_code(st, code)->Ok_0.0),
        alloc_code(st, code)->Ok_0.1.len() == code.len(),
        forall|i: int|
            0 <= i < code.len() ==> allocated_from(
                code[i],
                #[trigger] alloc_code(st, code)->Ok_0.1[i],
            ),
        forall|i: int|
            0 <= i < code.len() ==> within_pool(#[trigger] alloc_code(st, code)->Ok_0.1[i]),
    decreases code.len(),
{
    if code.len() > 0 {
        lemma_alloc_ins_well_formed(st, code.first());
        let (st1, ir) = alloc_ins(st, code.first())->Ok_0;
        lemma_alloc_code_well_formed(st1, code.drop_first());
        let out = alloc_code(st, code)->Ok_0.1;
        let rest = alloc_code(st1, code.drop_first())->Ok_0.1;
        assert forall|i: int| 0 <= i < code.len() implies allocated_from(
            code[i],
            #[trigger] out[i],
        ) && within_pool(out[i]) by {
            if i > 0 {
                assert(out[i] == rest[i - 1]);
                assert(code[i] == code.drop_first()[i - 1]);
            }
        }
    }
}

/// A pass gives one instruction for each instruction of the list.
pub proof fn lemma_alloc_code_len(st: AllocState, code: Seq<IrView>)
    requires
        alloc_code(st, code) is Ok,
    ensures
        alloc_code(st, code)->Ok_0.1.len() == code.len(),
    decreases code.len(),
{
    if code.len() > 0 {
        lemma_alloc_code_len(alloc_ins(st, code.first())->Ok_0.0, code.drop_first());
    }
}

/// A pass that succeeds on a list succeeds on each of its prefixes, with
/// the matching prefix of the output.
pub proof fn lemma_alloc_code_prefix(st: AllocState, code: Seq<IrView>, k: int)
    requires
        0 <= k <= code.len(),
        alloc_code(st, code) is Ok,
    ensures
        alloc_code(st, code.take(k)) is Ok,
        alloc_code(st, code.take(k))->Ok_0.1 == alloc_code(st, code)->Ok_0.1.take(k),
    decreases k,
{
    if k == 0 {
        assert(code.take(0) =~= Seq::<IrView>::empty());
        assert(alloc_code(st, code)->Ok_0.1.take(0) =~= Seq::<IrView>::empty());
    } else {
        let (st1, ir) = alloc_ins(st, code.first())->Ok_0;
        lemma_alloc_code_prefix(st1, code.drop_first(), k - 1);
        assert(code.take(k).first() == code.first());
        assert(code.take(k).drop_first() =~= code.drop_first().take(k - 1));
        let rest = alloc_code(st1, code.drop_first())->Ok_0.1;
        lemma_alloc_code_len(st1, code.drop_first());
        assert(seq![ir] + rest.take(k - 1) =~= (seq![ir] + rest).take(k));
    }
}

/// A well-formed state has no more slots in use than the pool has.
pub proof fn lemma_in_use_bounded(st: AllocState)
    requires
        well_formed(st),
    ensures
        st.in_use.finite(),
        st.in_use.len() <= NUM_REGS,
{
    vstd::set_lib::lemma_int_range(0, NUM_REGS as int);
    assert(st.in_use.subset_of(vstd::set_lib::set_int_range(0, NUM_REGS as int)));
    vstd::set_lib::lemma_len_subset(st.in_use, vstd::set_lib::set_int_range(0, NUM_REGS as int));
}

/// The register count: at every point of a function that is allocated,
/// that is after each `k` of its instructions, the number of slots in use
/// is at most the size of the pool, every slot in use belongs to exactly
/// one live virtual register, and the instructions so far name only slots
/// of the pool.
pub proof fn lemma_register_count(code: Seq<IrView>, k: int)
    requires
        0 <= k <= code.len(),
        alloc_function(code) is Ok,
    ensures
        alloc_code(fresh(), code.take(k)) is Ok,
        well_formed(alloc_code(fresh(), code.take(k))->Ok_0.0),
        alloc_code(fresh(), code.take(k))->Ok_0.0.in_use.finite(),
        alloc_code(fresh(), code.take(k))->Ok_0.0.in_use.len() <= NUM_REGS,
        forall|i: int| 0 <= i < k ==> within_pool(#[trigger] alloc_function(code)->Ok_0[i]),
{
    lemma_alloc_code_prefix(fresh(), code, k);
    lemma_alloc_code_well_formed(fresh(), code.take(k));
    lemma_alloc_code_well_formed(fresh(), code);
    lemma_in_use_bounded(alloc_code(fresh(), code.take(k))->Ok_0.0);
}

/// Allocation keeps every instruction in its place: the list keeps its
/// length, each `Kill` becomes one `Nop`, and a `Nop` in the output stands
/// only where the input had a `Kill` or a `Nop`.
pub proof fn lemma_kill_becomes_nop(code: Seq<IrView>)
    requires
        alloc_function(code) is Ok,
    ensures
        alloc_function(code)->Ok_0.len() == code.len(),
        forall|i: int|
            0 <= i < code.len() ==> allocated_from(code[i], #[trigger] alloc_function(code)->Ok_0[i]),
        forall|i: int|
            0 <= i < code.len() ==> (#[trigger] alloc_function(code)->Ok_0[i].op is Nop <==> (
            code[i].op is Kill || code[i].op is Nop)),
{
    lemma_alloc_code_well_formed(fresh(), code);
    let out = alloc_function(code)->Ok_0;
    assert forall|i: int| 0 <= i < code.len() implies (#[trigger] out[i].op is Nop <==> (
    code[i].op is Kill || code[i].op is Nop)) by {
        assert(allocated_from(code[i], out[i]));
    }
}

/// Allocation is deterministic: two passes over the same list, each from
/// the fresh state, end with the same bindings and give the same
/// instructions.
pub proof fn lemma_allocation_deterministic(
    code: Seq<IrView>,
    first: Result<(AllocState, Seq<IrView>), CompileError>,
    second: Result<(AllocState, Seq<IrView>), CompileError>,
)
    requires
        first == alloc_code(fresh(), code),
        second == alloc_code(fresh(), code),
    ensures
        first == second,
        first is Ok ==> first->Ok_0.0.bindings == second->Ok_0.0.bindings,
{
}

} // verus!
