//! The intermediate representation and the pass that lowers a syntax tree
//! to it.

use crate::error::CompileError;
use crate::node::{boxed_trees, trees, BinOp, Ctype, Node, NodeBase, NodeView};
use vstd::prelude::*;

verus! {

/// What an instruction does.
#[derive(Debug, PartialEq)]
pub enum Op {
    /// `lhs := lhs + rhs`
    Add,
    /// `lhs := lhs - rhs`
    Sub,
    /// `lhs := lhs * rhs`
    Mul,
    /// `lhs := lhs / rhs`
    Div,
    /// Load the immediate `rhs` into register `lhs`.
    Imm,
    /// Copy register `rhs` into register `lhs`.
    Mov,
    /// Return the value held in register `lhs`.
    Return,
    /// The start of the named function's instructions.
    DefFun(String),
    /// Store the incoming parameter with ordinal `lhs` into its stack slot.
    StoreArg,
    /// Load a variable's stack slot into register `lhs`. The instruction
    /// names no variable: the slot read is the one with the index of the
    /// register, which is the variable's slot only as far as the order of
    /// allocation makes it so.
    Load,
    /// Call the named function with the argument registers; result in `lhs`.
    Call(String, Vec<isize>),
    /// Register `lhs` is dead from here on.
    Kill,
    /// Nothing.
    Nop,
}

/// One instruction.
#[derive(Debug, PartialEq)]
pub struct Ir {
    pub op: Op,
    pub lhs: isize,
    pub rhs: isize,
}

/// The mathematical value of an [`Op`].
pub enum OpView {
    Add,
    Sub,
    Mul,
    Div,
    Imm,
    Mov,
    Return,
    DefFun(Seq<char>),
    StoreArg,
    Load,
    Call(Seq<char>, Seq<int>),
    Kill,
    Nop,
}

/// The mathematical value of an [`Ir`].
pub struct IrView {
    pub op: OpView,
    pub lhs: int,
    pub rhs: int,
}

/// A list of machine integers as a sequence of integers.
pub open spec fn ints(s: Seq<isize>) -> Seq<int> {
    s.map_values(|r: isize| r as int)
}

impl View for Op {
    type V = OpView;

    open spec fn view(&self) -> OpView {
        match self {
            Op::Add => OpView::Add,
            Op::Sub => OpView::Sub,
            Op::Mul => OpView::Mul,
            Op::Div => OpView::Div,
            Op::Imm => OpView::Imm,
            Op::Mov => OpView::Mov,
            Op::Return => OpView::Return,
            Op::DefFun(name) => OpView::DefFun(name@),
            Op::StoreArg => OpView::StoreArg,
            Op::Load => OpView::Load,
            Op::Call(name, args) => OpView::Call(name@, ints(args@)),
            Op::Kill => OpView::Kill,
            Op::Nop => OpView::Nop,
        }
    }
}

impl View for Ir {
    type V = IrView;

    open spec fn view(&self) -> IrView {
        IrView { op: self.op@, lhs: self.lhs as int, rhs: self.rhs as int }
    }
}

impl DeepView for Ir {
    type V = IrView;

    open spec fn deep_view(&self) -> IrView {
        self@
    }
}

impl Ir {
    /// An instruction from its parts.
    pub fn new(op: Op, lhs: isize, rhs: isize) -> (ir: Ir)
        ensures
            ir.op == op,
            ir.lhs == lhs,
            ir.rhs == rhs,
    {
        Ir { op: op, lhs: lhs, rhs: rhs }
    }
}

/// An instruction's value from its parts.
pub open spec fn ins(op: OpView, lhs: int, rhs: int) -> IrView {
    IrView { op: op, lhs: lhs, rhs: rhs }
}

/// The value that a machine integer holds for `n`: `n` itself where it
/// fits.
pub open spec fn machine_int(n: nat) -> int {
    (n as isize) as int
}

/// The instruction that computes a binary operator.
pub open spec fn arith(op: BinOp) -> OpView {
    match op {
        BinOp::Add => OpView::Add,
        BinOp::Sub => OpView::Sub,
        BinOp::Mul => OpView::Mul,
        BinOp::Div => OpView::Div,
    }
}

/// Whether the counter can hand out `regc` as a new virtual register. The
/// counter is a machine integer and must be able to move past it.
pub open spec fn has_room(regc: int) -> bool {
    regc < isize::MAX
}

/// The lowering of an expression whose first new virtual register is
/// `regc`: the instructions, the register that holds the value, and the
/// counter afterwards.
///
/// A literal and a variable take one new register each. A call takes its
/// result register before those of its arguments, which are lowered from
/// left to right. A binary operation leaves its value in the register of
/// the left operand and kills that of the right one.
pub open spec fn lower_expr(node: NodeView, regc: int) -> Result<
    (Seq<IrView>, int, int),
    CompileError,
>
    decreases node,
{
    match node {
        NodeView::Number(n) => if has_room(regc) {
            Ok((seq![ins(OpView::Imm, regc, machine_int(n))], regc, regc + 1))
        } else {
            Err(CompileError::RegisterSpaceExhausted)
        },
        NodeView::Ident(_) => if has_room(regc) {
            Ok((seq![ins(OpView::Load, regc, -1)], regc, regc + 1))
        } else {
            Err(CompileError::RegisterSpaceExhausted)
        },
        NodeView::Call(name, args) => if has_room(regc) {
            match lower_args(args, regc + 1) {
                Err(e) => Err(e),
                Ok((code, regs, next)) => Ok(
                    (code.push(ins(OpView::Call(name, regs), regc, -1)), regc, next),
                ),
            }
        } else {
            Err(CompileError::RegisterSpaceExhausted)
        },
        NodeView::BinaryOp(op, lhs, rhs) => match lower_expr(*lhs, regc) {
            Err(e) => Err(e),
            Ok((code1, a, next1)) => match lower_expr(*rhs, next1) {
                Err(e) => Err(e),
                Ok((code2, b, next2)) => Ok(
                    (
                        code1 + code2 + seq![ins(arith(op), a, b), ins(OpView::Kill, b, -1)],
                        a,
                        next2,
                    ),
                ),
            },
        },
        _ => Err(CompileError::MalformedAst),
    }
}

/// The lowering of the arguments of a call, from left to right: the
/// instructions, the register of each argument, and the counter afterwards.
pub open spec fn lower_args(args: Seq<NodeView>, regc: int) -> Result<
    (Seq<IrView>, Seq<int>, int),
    CompileError,
>
    decreases args,
{
    if args.len() == 0 {
        Ok((Seq::empty(), Seq::empty(), regc))
    } else {
        match lower_expr(args.first(), regc) {
            Err(e) => Err(e),
            Ok((code1, reg, next1)) => match lower_args(args.drop_first(), next1) {
                Err(e) => Err(e),
                Ok((code2, regs, next2)) => Ok((code1 + code2, seq![reg] + regs, next2)),
            },
        }
    }
}

/// The lowering of a statement: the instructions and the counter
/// afterwards. A return hands over the value of its expression and kills
/// its register; a block lowers its statements in order; an expression
/// that stands as a statement is evaluated and its register killed.
pub open spec fn lower_stmt(node: NodeView, regc: int) -> Result<(Seq<IrView>, int), CompileError>
    decreases node,
{
    match node {
        NodeView::Return(e) => match lower_expr(*e, regc) {
            Err(e) => Err(e),
            Ok((code, r, next)) => Ok(
                (code + seq![ins(OpView::Return, r, 0), ins(OpView::Kill, r, -1)], next),
            ),
        },
        NodeView::Statements(list) => lower_stmts(list, regc),
        _ => match lower_expr(node, regc) {
            Err(e) => Err(e),
            Ok((code, r, next)) => Ok((code.push(ins(OpView::Kill, r, -1)), next)),
        },
    }
}

/// The lowering of the statements of a block, in order.
pub open spec fn lower_stmts(list: Seq<NodeView>, regc: int) -> Result<
    (Seq<IrView>, int),
    CompileError,
>
    decreases list,
{
    if list.len() == 0 {
        Ok((Seq::empty(), regc))
    } else {
        match lower_stmt(list.first(), regc) {
            Err(e) => Err(e),
            Ok((code1, next1)) => match lower_stmts(list.drop_first(), next1) {
                Err(e) => Err(e),
                Ok((code2, next2)) => Ok((code1 + code2, next2)),
            },
        }
    }
}

/// The stores of `n` incoming parameters: one per parameter, by ordinal.
pub open spec fn store_args(n: nat) -> Seq<IrView> {
    Seq::new(n, |i: int| ins(OpView::StoreArg, machine_int(i as nat), -1))
}

/// The instruction list of one function definition: its mark, the stores
/// of its parameters, then its body, with virtual registers counted from 0.
pub open spec fn lower_function(node: NodeView) -> Result<Seq<IrView>, CompileError> {
    match node {
        NodeView::DefFun(_, id, params, body) => match *id {
            NodeView::Ident(name) => match lower_stmt(*body, 0) {
                Err(e) => Err(e),
                Ok((code, _)) => Ok(
                    seq![ins(OpView::DefFun(name), -1, -1)] + store_args(params.len()) + code,
                ),
            },
            _ => Err(CompileError::MalformedAst),
        },
        _ => Err(CompileError::MalformedAst),
    }
}

/// The instruction lists of a program, one per function definition, in
/// order. The first failure is the failure of the whole.
pub open spec fn lower_program(nodes: Seq<NodeView>) -> Result<Seq<Seq<IrView>>, CompileError>
    decreases nodes.len(),
{
    if nodes.len() == 0 {
        Ok(Seq::empty())
    } else {
        match lower_function(nodes.first()) {
            Err(e) => Err(e),
            Ok(code) => match lower_program(nodes.drop_first()) {
                Err(e) => Err(e),
                Ok(rest) => Ok(seq![code] + rest),
            },
        }
    }
}

/// Virtual registers are counted up: the register that holds the value of
/// an expression is at or above the counter before, and below the counter
/// after.
pub proof fn lemma_lower_expr_counts_up(node: NodeView, regc: int)
    requires
        lower_expr(node, regc) is Ok,
    ensures
        regc <= lower_expr(node, regc)->Ok_0.1 < lower_expr(node, regc)->Ok_0.2,
    decreases node,
{
    match node {
        NodeView::Call(name, args) => {
            lemma_lower_args_counts_up(args, regc + 1);
        },
        NodeView::BinaryOp(op, lhs, rhs) => {
            lemma_lower_expr_counts_up(*lhs, regc);
            lemma_lower_expr_counts_up(*rhs, lower_expr(*lhs, regc)->Ok_0.2);
        },
        _ => {},
    }
}

/// The arguments of a call have one register each, in their order, all at
/// or above the counter before and below the counter after.
pub proof fn lemma_lower_args_counts_up(args: Seq<NodeView>, regc: int)
    requires
        lower_args(args, regc) is Ok,
    ensures
        regc <= lower_args(args, regc)->Ok_0.2,
        lower_args(args, regc)->Ok_0.1.len() == args.len(),
        forall|i: int|
            0 <= i < args.len() ==> regc <= #[trigger] lower_args(args, regc)->Ok_0.1[i]
                < lower_args(args, regc)->Ok_0.2,
    decreases args,
{
    if args.len() > 0 {
        lemma_lower_expr_counts_up(args.first(), regc);
        let next = lower_expr(args.first(), regc)->Ok_0.2;
        lemma_lower_args_counts_up(args.drop_first(), next);
        let regs = lower_args(args, regc)->Ok_0.1;
        let rest = lower_args(args.drop_first(), next)->Ok_0.1;
        assert forall|i: int| 0 <= i < args.len() implies regc <= #[trigger] regs[i]
            < lower_args(args, regc)->Ok_0.2 by {
            if i > 0 {
                assert(regs[i] == rest[i - 1]);
            }
        }
    }
}

/// The IR generator.
#[derive(Debug, PartialEq)]
pub struct GenIr {
    regc: isize,
    ins: Vec<Ir>,
    result: Vec<Vec<Ir>>,
}

/// `post` is `pre` with `code` behind its instructions and the counter at
/// `next`.
spec fn extended(pre: GenIr, post: GenIr, code: Seq<IrView>, next: int) -> bool {
    &&& post.result == pre.result
    &&& post.regc as int == next
    &&& post.ins.deep_view() == pre.ins.deep_view() + code
}

/// The result `r` for the arguments that are left, behind what is done.
spec fn args_behind(
    done: Seq<IrView>,
    regs: Seq<int>,
    r: Result<(Seq<IrView>, Seq<int>, int), CompileError>,
) -> Result<(Seq<IrView>, Seq<int>, int), CompileError> {
    match r {
        Err(e) => Err(e),
        Ok((code, more, next)) => Ok((done + code, regs + more, next)),
    }
}

/// The result `r` for the statements that are left, behind what is done.
spec fn stmts_behind(done: Seq<IrView>, r: Result<(Seq<IrView>, int), CompileError>) -> Result<
    (Seq<IrView>, int),
    CompileError,
> {
    match r {
        Err(e) => Err(e),
        Ok((code, next)) => Ok((done + code, next)),
    }
}

/// The result `r` for the functions that are left, behind those done.
spec fn program_behind(
    done: Seq<Seq<IrView>>,
    r: Result<Seq<Seq<IrView>>, CompileError>,
) -> Result<Seq<Seq<IrView>>, CompileError> {
    match r {
        Err(e) => Err(e),
        Ok(rest) => Ok(done + rest),
    }
}

impl GenIr {
    /// The instruction lists of the functions that are finished.
    pub closed spec fn finished(&self) -> Seq<Seq<IrView>> {
        self.result.deep_view()
    }

    /// The instructions of the function that is being lowered.
    pub closed spec fn pending(&self) -> Seq<IrView> {
        self.ins.deep_view()
    }

    /// The next virtual register that the counter hands out.
    pub closed spec fn counter(&self) -> int {
        self.regc as int
    }

    /// A generator at its start: no function finished, no instruction
    /// pending, and the counter of virtual registers at 0.
    pub fn new() -> (g: Self)
        ensures
            g.finished() == Seq::<Seq<IrView>>::empty(),
            g.pending() == Seq::<IrView>::empty(),
            g.counter() == 0,
    {
        let g = GenIr { regc: 0, ins: Vec::new(), result: Vec::new() };
        assert(g.result.deep_view() =~= Seq::<Seq<IrView>>::empty());
        assert(g.ins.deep_view() =~= Seq::<IrView>::empty());
        g
    }

    /// Lowers each function definition of `nodes`, in order, and hands out
    /// the instruction lists: those finished before, then one per
    /// definition. Fails at the first definition that cannot be lowered.
    pub fn run(self, nodes: &Vec<Node>) -> (r: Result<Vec<Vec<Ir>>, CompileError>)
        ensures
            match r {
                Ok(v) => lower_program(trees(nodes@)) matches Ok(program) && v.deep_view()
                    == self.finished() + program,
                Err(e) => lower_program(trees(nodes@)) == Err::<Seq<Seq<IrView>>, _>(e),
            },
    {
        let mut g = self;
        let ghost all = trees(nodes@);
        let ghost before = g.result.deep_view();
        let ghost mut done: Seq<Seq<IrView>> = Seq::empty();
        let mut i: usize = 0;
        proof {
            assert(all.skip(0) =~= all);
            assert(program_behind(done, lower_program(all)) =~~= lower_program(all));
            assert(before + done =~= before);
        }
        while i < nodes.len()
            invariant
                i <= nodes.len(),
                all == trees(nodes@),
                g.result.deep_view() == before + done,
                lower_program(all) == program_behind(done, lower_program(all.skip(i as int))),
            decreases nodes.len() - i,
        {
            proof {
                assert(all.skip(i as int).first() == nodes@[i as int]@);
                assert(all.skip(i as int).drop_first() =~= all.skip(i + 1));
            }
            g.ins = Vec::new();
            assert(g.ins.deep_view() =~= Seq::<IrView>::empty());
            match g.global_def(&nodes[i]) {
                Err(e) => {
                    return Err(e);
                },
                Ok(()) => {},
            }
            let mut code: Vec<Ir> = Vec::new();
            core::mem::swap(&mut g.ins, &mut code);
            let ghost listed = code.deep_view();
            let ghost finished = g.result.deep_view();
            g.result.push(code);
            proof {
                assert(Seq::<IrView>::empty() + listed =~= listed);
                assert(g.result.deep_view() =~= finished.push(listed));
                let rest = lower_program(all.skip(i + 1));
                match rest {
                    Err(e) => {},
                    Ok(more) => {
                        assert(done + (seq![listed] + more) =~= done.push(listed) + more);
                    },
                }
                assert(before + done.push(listed) =~= (before + done).push(listed));
                done = done.push(listed);
            }
            i += 1;
        }
        proof {
            assert(all.skip(i as int) =~= Seq::<NodeView>::empty());
            assert(done + Seq::<Seq<IrView>>::empty() =~= done);
        }
        Ok(g.result)
    }

    /// Puts one instruction behind the others.
    fn push(&mut self, ir: Ir)
        ensures
            extended(*old(self), *final(self), seq![ir@], old(self).regc as int),
    {
        self.ins.push(ir);
        assert(self.ins.deep_view() =~= old(self).ins.deep_view() + seq![ir@]);
    }

    /// Lowers one function definition, with virtual registers counted from
    /// 0.
    fn global_def(&mut self, node: &Node) -> (r: Result<(), CompileError>)
        ensures
            match r {
                Ok(()) => lower_function(node@) matches Ok(code) && final(self).ins.deep_view()
                    == old(self).ins.deep_view() + code && final(self).result
                    == old(self).result,
                Err(e) => lower_function(node@) == Err::<Seq<IrView>, _>(e),
            },
    {
        match &node.base {
            NodeBase::DefFun(_, id, args, stmts) => {
                let name = match GenIr::ident(id) {
                    Err(e) => {
                        return Err(e);
                    },
                    Ok(name) => name,
                };
                self.regc = 0;
                self.push(Ir::new(Op::DefFun(name), -1, -1));
                self.args_def(args);
                let ghost head = seq![ins(OpView::DefFun(name@), -1, -1)] + store_args(
                    args@.len(),
                );
                assert(self.ins.deep_view() =~= old(self).ins.deep_view() + head);
                match self.statement(stmts) {
                    Err(e) => Err(e),
                    Ok(()) => {
                        proof {
                            let code = lower_stmt(stmts@, 0)->Ok_0.0;
                            assert(self.ins.deep_view() =~= old(self).ins.deep_view() + (head
                                + code));
                        }
                        Ok(())
                    },
                }
            },
            _ => Err(CompileError::MalformedAst),
        }
    }

    /// Stores each incoming parameter, by ordinal.
    fn args_def(&mut self, args: &Vec<(Ctype, Node)>)
        ensures
            extended(
                *old(self),
                *final(self),
                store_args(args@.len()),
                old(self).regc as int,
            ),
    {
        let mut i: usize = 0;
        assert(self.ins.deep_view() =~= old(self).ins.deep_view() + store_args(0));
        while i < args.len()
            invariant
                i <= args.len(),
                extended(*old(self), *self, store_args(i as nat), old(self).regc as int),
            decreases args.len() - i,
        {
            let ghost pre = self.ins.deep_view();
            self.push(Ir::new(Op::StoreArg, #[verifier::truncate] (i as isize), -1));
            proof {
                assert(store_args(i as nat).push(
                    ins(OpView::StoreArg, machine_int(i as nat), -1),
                ) =~= store_args((i + 1) as nat));
                assert(self.ins.deep_view() =~= old(self).ins.deep_view() + store_args(
                    (i + 1) as nat,
                ));
            }
            i += 1;
        }
    }

    /// Lowers one statement.
    fn statement(&mut self, node: &Node) -> (r: Result<(), CompileError>)
        ensures
            match r {
                Ok(()) => lower_stmt(node@, old(self).regc as int) matches Ok((code, next))
                    && extended(*old(self), *final(self), code, next),
                Err(e) => lower_stmt(node@, old(self).regc as int) == Err::<(Seq<IrView>, int), _>(
                    e,
                ),
            },
        decreases node,
    {
        match &node.base {
            NodeBase::Return(e) => {
                match self.expr(e) {
                    Err(e) => Err(e),
                    Ok(r) => {
                        let ghost mid = self.ins.deep_view();
                        self.push(Ir::new(Op::Return, r, 0));
                        self.push(Ir::new(Op::Kill, r, -1));
                        proof {
                            let code = lower_expr(e@, old(self).regc as int)->Ok_0.0;
                            assert(self.ins.deep_view() =~= old(self).ins.deep_view() + (code
                                + seq![
                                ins(OpView::Return, r as int, 0),
                                ins(OpView::Kill, r as int, -1),
                            ]));
                        }
                        Ok(())
                    },
                }
            },
            NodeBase::Statements(ndv) => {
                let ghost all = boxed_trees(ndv@);
                let ghost start = self.regc as int;
                let ghost mut done: Seq<IrView> = Seq::empty();
                let mut i: usize = 0;
                proof {
                    assert(all =~= node@->Statements_0);
                    assert(all.skip(0) =~= all);
                    assert(stmts_behind(done, lower_stmts(all, start)) =~~= lower_stmts(
                        all,
                        start,
                    ));
                    assert(self.ins.deep_view() + done =~= self.ins.deep_view());
                }
                while i < ndv.len()
                    invariant
                        i <= ndv.len(),
                        all == boxed_trees(ndv@),
                        node.base == NodeBase::Statements(*ndv),
                        all == node@->Statements_0,
                        node@ is Statements,
                        start == old(self).regc as int,
                        self.result == old(self).result,
                        self.ins.deep_view() == old(self).ins.deep_view() + done,
                        lower_stmts(all, start) == stmts_behind(
                            done,
                            lower_stmts(all.skip(i as int), self.regc as int),
                        ),
                    decreases ndv.len() - i,
                {
                    proof {
                        assert(all.skip(i as int).first() == (*ndv@[i as int])@);
                        assert(all.skip(i as int).drop_first() =~= all.skip(i + 1));
                    }
                    let ghost at = self.regc as int;
                    let ghost pre = self.ins.deep_view();
                    match self.statement(&ndv[i]) {
                        Err(e) => {
                            return Err(e);
                        },
                        Ok(()) => {
                            proof {
                                let (code, next) = lower_stmt((*ndv@[i as int])@, at)->Ok_0;
                                let rest = lower_stmts(all.skip(i + 1), next);
                                match rest {
                                    Err(e) => {},
                                    Ok((more, last)) => {
                                        assert(done + (code + more) =~= (done + code) + more);
                                    },
                                }
                                assert(old(self).ins.deep_view() + (done + code) =~= pre + code);
                                done = done + code;
                            }
                        },
                    }
                    i += 1;
                }
                proof {
                    assert(all.skip(i as int) =~= Seq::<NodeView>::empty());
                    assert(done + Seq::<IrView>::empty() =~= done);
                }
                Ok(())
            },
            _ => {
                match self.expr(node) {
                    Err(e) => Err(e),
                    Ok(r) => {
                        self.push(Ir::new(Op::Kill, r, -1));
                        proof {
                            let code = lower_expr(node@, old(self).regc as int)->Ok_0.0;
                            assert(self.ins.deep_view() =~= old(self).ins.deep_view()
                                + code.push(ins(OpView::Kill, r as int, -1)));
                        }
                        Ok(())
                    },
                }
            },
        }
    }

    /// Lowers one expression and gives the register that holds its value.
    fn expr(&mut self, node: &Node) -> (r: Result<isize, CompileError>)
        ensures
            match r {
                Ok(reg) => lower_expr(node@, old(self).regc as int) matches Ok((code, r0, next))
                    && r0 == reg && extended(*old(self), *final(self), code, next),
                Err(e) => lower_expr(node@, old(self).regc as int) == Err::<
                    (Seq<IrView>, int, int),
                    _,
                >(e),
            },
        decreases node, 1int,
    {
        match &node.base {
            NodeBase::Number(n) => {
                match self.regc_step() {
                    Err(e) => Err(e),
                    Ok(current) => {
                        self.push(Ir::new(Op::Imm, current, #[verifier::truncate] (*n as isize)));
                        Ok(current)
                    },
                }
            },
            NodeBase::Ident(_) => {
                match self.regc_step() {
                    Err(e) => Err(e),
                    Ok(r) => {
                        self.push(Ir::new(Op::Load, r, -1));
                        Ok(r)
                    },
                }
            },
            NodeBase::Call(s, args) => {
                match self.regc_step() {
                    Err(e) => Err(e),
                    Ok(current) => {
                        assert(trees(args@) =~= node@->Call_1);
                        match self.call_args(args) {
                            Err(e) => Err(e),
                            Ok(regs) => {
                                self.push(Ir::new(Op::Call(s.clone(), regs), current, -1));
                                proof {
                                    let code = lower_args(trees(args@), current + 1)->Ok_0.0;
                                    assert(self.ins.deep_view() =~= old(self).ins.deep_view()
                                        + code.push(
                                        ins(OpView::Call(s@, ints(regs@)), current as int, -1),
                                    ));
                                }
                                Ok(current)
                            },
                        }
                    },
                }
            },
            NodeBase::BinaryOp(op, lhs, rhs) => self.binary_op(op, lhs, rhs, Ghost(*node)),
            _ => Err(CompileError::MalformedAst),
        }
    }

    /// Lowers the arguments of a call, from left to right, and gives the
    /// register of each.
    fn call_args(&mut self, args: &Vec<Node>) -> (r: Result<Vec<isize>, CompileError>)
        ensures
            match r {
                Ok(regs) => lower_args(trees(args@), old(self).regc as int) matches Ok(
                    (code, regs0, next),
                ) && regs0 == ints(regs@) && extended(*old(self), *final(self), code, next),
                Err(e) => lower_args(trees(args@), old(self).regc as int) == Err::<
                    (Seq<IrView>, Seq<int>, int),
                    _,
                >(e),
            },
        decreases args, 0int,
    {
        let ghost all = trees(args@);
        let ghost start = self.regc as int;
        let ghost mut done: Seq<IrView> = Seq::empty();
        let mut v: Vec<isize> = Vec::new();
        let mut i: usize = 0;
        proof {
            assert(all.skip(0) =~= all);
            assert(ints(v@) =~= Seq::<int>::empty());
            assert(args_behind(done, ints(v@), lower_args(all, start)) =~~= lower_args(
                all,
                start,
            ));
            assert(self.ins.deep_view() + done =~= self.ins.deep_view());
        }
        while i < args.len()
            invariant
                i <= args.len(),
                all == trees(args@),
                start == old(self).regc as int,
                self.result == old(self).result,
                self.ins.deep_view() == old(self).ins.deep_view() + done,
                lower_args(all, start) == args_behind(
                    done,
                    ints(v@),
                    lower_args(all.skip(i as int), self.regc as int),
                ),
            decreases args.len() - i,
        {
            proof {
                assert(all.skip(i as int).first() == args@[i as int]@);
                assert(all.skip(i as int).drop_first() =~= all.skip(i + 1));
            }
            let ghost at = self.regc as int;
            let ghost pre = self.ins.deep_view();
            let ghost regs = ints(v@);
            match self.expr(&args[i]) {
                Err(e) => {
                    return Err(e);
                },
                Ok(reg) => {
                    v.push(reg);
                    proof {
                        let (code, r0, next) = lower_expr(args@[i as int]@, at)->Ok_0;
                        let rest = lower_args(all.skip(i + 1), next);
                        assert(ints(v@) =~= regs.push(reg as int));
                        match rest {
                            Err(e) => {},
                            Ok((more, more_regs, last)) => {
                                assert(done + (code + more) =~= (done + code) + more);
                                assert(regs + (seq![reg as int] + more_regs) =~= regs.push(
                                    reg as int,
                                ) + more_regs);
                            },
                        }
                        assert(old(self).ins.deep_view() + (done + code) =~= pre + code);
                        done = done + code;
                    }
                },
            }
            i += 1;
        }
        proof {
            assert(all.skip(i as int) =~= Seq::<NodeView>::empty());
            assert(done + Seq::<IrView>::empty() =~= done);
            assert(ints(v@) + Seq::<int>::empty() =~= ints(v@));
        }
        Ok(v)
    }

    /// The name that an identifier node holds.
    fn ident(node: &Node) -> (r: Result<String, CompileError>)
        ensures
            match r {
                Ok(name) => node@ == NodeView::Ident(name@),
                Err(e) => !(node@ is Ident) && e == CompileError::MalformedAst,
            },
    {
        match &node.base {
            NodeBase::Ident(s) => Ok(s.clone()),
            _ => Err(CompileError::MalformedAst),
        }
    }

    /// Lowers a binary operation: the left operand, the right operand, the
    /// operation, and the end of the right operand's register.
    fn binary_op(&mut self, op: &BinOp, lhs: &Node, rhs: &Node, Ghost(parent): Ghost<Node>) -> (r:
        Result<isize, CompileError>)
        requires
            parent.base == NodeBase::BinaryOp(*op, Box::new(*lhs), Box::new(*rhs)),
        ensures
            match r {
                Ok(reg) => lower_expr(parent@, old(self).regc as int) matches Ok(
                    (code, r0, next),
                ) && r0 == reg && extended(*old(self), *final(self), code, next),
                Err(e) => lower_expr(parent@, old(self).regc as int) == Err::<
                    (Seq<IrView>, int, int),
                    _,
                >(e),
            },
        decreases parent, 0int,
    {
        let a = match self.expr(lhs) {
            Err(e) => {
                return Err(e);
            },
            Ok(a) => a,
        };
        let ghost mid = self.regc as int;
        let b = match self.expr(rhs) {
            Err(e) => {
                return Err(e);
            },
            Ok(b) => b,
        };
        let op = match op {
            BinOp::Add => Op::Add,
            BinOp::Sub => Op::Sub,
            BinOp::Mul => Op::Mul,
            BinOp::Div => Op::Div,
        };
        let ghost opv = op@;
        self.push(Ir::new(op, a, b));
        self.push(Ir::new(Op::Kill, b, -1));
        proof {
            let code1 = lower_expr(lhs@, old(self).regc as int)->Ok_0.0;
            let code2 = lower_expr(rhs@, mid)->Ok_0.0;
            assert(self.ins.deep_view() =~= old(self).ins.deep_view() + (code1 + code2 + seq![
                ins(opv, a as int, b as int),
                ins(OpView::Kill, b as int, -1),
            ]));
        }
        Ok(a)
    }

    /// Hands out the next virtual register.
    fn regc_step(&mut self) -> (r: Result<isize, CompileError>)
        ensures
            match r {
                Ok(c) => {
                    &&& has_room(c as int)
                    &&& c == old(self).regc
                    &&& final(self).regc == c + 1
                    &&& final(self).ins == old(self).ins
                    &&& final(self).result == old(self).result
                },
                Err(e) => {
                    &&& !has_room(old(self).regc as int)
                    &&& e == CompileError::RegisterSpaceExhausted
                    &&& *final(self) == *old(self)
                },
            },
    {
        if self.regc == isize::MAX {
            return Err(CompileError::RegisterSpaceExhausted);
        }
        let c = self.regc;
        self.regc += 1;
        Ok(c)
    }
}

} // verus!
