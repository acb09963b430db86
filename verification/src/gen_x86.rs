//! The emitter: allocated instructions to x86-64 assembly text.

use crate::error::CompileError;
use crate::gen_ir::{ints, Ir, IrView, Op, OpView};
use crate::text::{decimal, push_signed, push_unsigned, signed_decimal};
use vstd::prelude::*;

verus! {

/// The number of physical registers that hold computed values.
pub const NUM_REGS: usize = 7;

/// The number of registers that carry arguments into a call.
pub const NUM_ARGREGS: usize = 6;

/// The width in bytes of the one numeric type.
pub const WIDTH: usize = 4;

/// The names of the value registers at an operand width of `size` bytes:
/// the 8-bit names for 1, the 32-bit names for 4, the 64-bit names otherwise.
pub open spec fn reg_names(size: int) -> Seq<Seq<char>> {
    if size == 1 {
        seq!["r10b"@, "r11b"@, "bl"@, "r12b"@, "r13b"@, "r14b"@, "r15b"@]
    } else if size == 4 {
        seq!["r10d"@, "r11d"@, "ebx"@, "r12d"@, "r13d"@, "r14d"@, "r15d"@]
    } else {
        seq!["r10"@, "r11"@, "rbx"@, "r12"@, "r13"@, "r14"@, "r15"@]
    }
}

/// The names of the argument registers, in calling-convention order, at an
/// operand width of `size` bytes.
pub open spec fn argreg_names(size: int) -> Seq<Seq<char>> {
    if size == 1 {
        seq!["dil"@, "sil"@, "dl"@, "cl"@, "r8b"@, "r9b"@]
    } else if size == 4 {
        seq!["edi"@, "esi"@, "edx"@, "ecx"@, "r8d"@, "r9d"@]
    } else {
        seq!["rdi"@, "rsi"@, "rdx"@, "rcx"@, "r8"@, "r9"@]
    }
}

/// The name under which an instruction addresses value register `i`.
pub open spec fn reg32(i: int) -> Seq<char> {
    reg_names(4)[i]
}

/// The name under which an instruction addresses argument register `i`.
pub open spec fn argreg32(i: int) -> Seq<char> {
    argreg_names(4)[i]
}

/// Whether `r` is the index of a value register.
pub open spec fn is_reg(r: int) -> bool {
    0 <= r < NUM_REGS
}

/// The move that puts value register `reg` into the argument register at
/// `position`.
pub open spec fn arg_move(position: int, reg: int) -> Seq<char> {
    "  mov "@ + argreg32(position) + ", "@ + reg32(reg) + "\n"@
}

/// The moves that marshal the arguments of a call: one per argument, the
/// first argument first, each into the argument register of its position.
pub open spec fn arg_moves(args: Seq<int>) -> Seq<char>
    decreases args.len(),
{
    if args.len() == 0 {
        Seq::empty()
    } else {
        arg_moves(args.drop_last()) + arg_move(args.len() - 1, args.last())
    }
}

/// The stack offset of the slot with index `slot`.
pub open spec fn slot_offset(slot: int) -> int {
    (slot + 1) * WIDTH
}

/// Whether the emitter has a translation for `ir`: its operation is one that
/// survives allocation, and every register it names exists.
pub open spec fn translatable(ir: IrView) -> bool {
    match ir.op {
        OpView::DefFun(_) => true,
        OpView::Nop => true,
        OpView::Kill => false,
        OpView::Imm => is_reg(ir.lhs),
        OpView::Load => is_reg(ir.lhs),
        OpView::Return => is_reg(ir.lhs),
        OpView::StoreArg => 0 <= ir.lhs < NUM_ARGREGS,
        OpView::Call(_, args) => {
            &&& is_reg(ir.lhs)
            &&& args.len() <= NUM_ARGREGS
            &&& forall|i: int| 0 <= i < args.len() ==> is_reg(#[trigger] args[i])
        },
        OpView::Mov | OpView::Add | OpView::Sub | OpView::Mul | OpView::Div => {
            is_reg(ir.lhs) && is_reg(ir.rhs)
        },
    }
}

/// The assembly text of one instruction.
pub open spec fn translation(ir: IrView) -> Seq<char> {
    match ir.op {
        OpView::DefFun(name) => name + ":\n"@ + "  push rbp\n"@ + "  mov rbp, rsp\n"@,
        OpView::Call(name, args) => arg_moves(args) + "  mov rax, 0\n"@ + "  call "@ + name
            + "\n"@ + "  mov "@ + reg32(ir.lhs) + ", eax\n"@,
        OpView::Imm => "  mov "@ + reg32(ir.lhs) + ", "@ + signed_decimal(ir.rhs) + "\n"@,
        OpView::StoreArg => "  mov dword ptr [rbp-"@ + decimal(slot_offset(ir.lhs) as nat)
            + "], "@ + argreg32(ir.lhs) + "\n"@,
        OpView::Load => "  mov "@ + reg32(ir.lhs) + ", dword ptr [rbp-"@ + decimal(
            slot_offset(ir.lhs) as nat,
        ) + "]\n"@,
        OpView::Mov => "  mov "@ + reg32(ir.lhs) + ", "@ + reg32(ir.rhs) + "\n"@,
        OpView::Return => "  mov eax, "@ + reg32(ir.lhs) + "\n"@,
        OpView::Add => "  add "@ + reg32(ir.lhs) + ", "@ + reg32(ir.rhs) + "\n"@,
        OpView::Sub => "  sub "@ + reg32(ir.lhs) + ", "@ + reg32(ir.rhs) + "\n"@,
        OpView::Mul => "  mov eax, "@ + reg32(ir.rhs) + "\n"@ + "  imul "@ + reg32(ir.lhs)
            + "\n"@ + "  mov "@ + reg32(ir.lhs) + ", eax\n"@,
        OpView::Div => "  mov eax, "@ + reg32(ir.lhs) + "\n"@ + "  cqo\n"@ + "  idiv "@ + reg32(
            ir.rhs,
        ) + "\n"@ + "  mov "@ + reg32(ir.lhs) + ", eax\n"@,
        OpView::Nop => Seq::empty(),
        OpView::Kill => Seq::empty(),
    }
}

/// The translations of the instructions of `code`, in order.
pub open spec fn body_text(code: Seq<IrView>) -> Seq<char>
    decreases code.len(),
{
    if code.len() == 0 {
        Seq::empty()
    } else {
        body_text(code.drop_last()) + translation(code.last())
    }
}

/// The routine of one function: its instructions, then the epilogue.
pub open spec fn function_text(code: Seq<IrView>) -> Seq<char> {
    body_text(code) + "  pop rbp\n"@ + "  ret\n"@
}

/// The routines of `functions`, in order.
pub open spec fn routines_text(functions: Seq<Seq<IrView>>) -> Seq<char>
    decreases functions.len(),
{
    if functions.len() == 0 {
        Seq::empty()
    } else {
        routines_text(functions.drop_last()) + function_text(functions.last())
    }
}

/// The whole translation unit: the syntax directive, the declaration of the
/// entry point, then one routine per function.
pub open spec fn program_text(functions: Seq<Seq<IrView>>) -> Seq<char> {
    ".intel_syntax noprefix\n"@ + ".global main\n"@ + routines_text(functions)
}

/// Whether every instruction of `code` has a translation.
pub open spec fn all_translatable(code: Seq<IrView>) -> bool {
    forall|i: int| 0 <= i < code.len() ==> translatable(#[trigger] code[i])
}

/// One register name.
struct Reg {
    name: String,
}

fn new_reg(s: &str) -> (r: Reg)
    ensures
        r.name@ == s@,
{
    Reg { name: String::from_str(s) }
}

/// The names held by a table of registers.
spec fn names(table: Seq<Reg>) -> Seq<Seq<char>> {
    table.map_values(|r: Reg| r.name@)
}

/// The emitter, with its tables of register names.
pub struct X86 {
    regs: Vec<Reg>,
    regs8: Vec<Reg>,
    regs32: Vec<Reg>,
    argregs: Vec<Reg>,
    argregs8: Vec<Reg>,
    argregs32: Vec<Reg>,
}

impl X86 {
    /// The names that the emitter holds for the value registers at an
    /// operand width of `size` bytes.
    pub closed spec fn reg_table(&self, size: int) -> Seq<Seq<char>> {
        if size == 1 {
            names(self.regs8@)
        } else if size == 4 {
            names(self.regs32@)
        } else {
            names(self.regs@)
        }
    }

    /// The names that the emitter holds for the argument registers at an
    /// operand width of `size` bytes.
    pub closed spec fn argreg_table(&self, size: int) -> Seq<Seq<char>> {
        if size == 1 {
            names(self.argregs8@)
        } else if size == 4 {
            names(self.argregs32@)
        } else {
            names(self.argregs@)
        }
    }

    /// The tables hold the register names of each width, in order.
    #[verifier::type_invariant]
    closed spec fn wf(&self) -> bool {
        &&& names(self.regs@) == reg_names(8)
        &&& names(self.regs8@) == reg_names(1)
        &&& names(self.regs32@) == reg_names(4)
        &&& names(self.argregs@) == argreg_names(8)
        &&& names(self.argregs8@) == argreg_names(1)
        &&& names(self.argregs32@) == argreg_names(4)
    }

    /// An emitter for x86-64, with the names of the seven value registers
    /// and of the six argument registers at each operand width.
    pub fn new() -> (x86: X86)
        ensures
            forall|size: int| #[trigger] x86.reg_table(size) == reg_names(size),
            forall|size: int| #[trigger] x86.argreg_table(size) == argreg_names(size),
    {
        let regs = vec![
            new_reg("r10"),
            new_reg("r11"),
            new_reg("rbx"),
            new_reg("r12"),
            new_reg("r13"),
            new_reg("r14"),
            new_reg("r15"),
        ];
        let regs8 = vec![
            new_reg("r10b"),
            new_reg("r11b"),
            new_reg("bl"),
            new_reg("r12b"),
            new_reg("r13b"),
            new_reg("r14b"),
            new_reg("r15b"),
        ];
        let regs32 = vec![
            new_reg("r10d"),
            new_reg("r11d"),
            new_reg("ebx"),
            new_reg("r12d"),
            new_reg("r13d"),
            new_reg("r14d"),
            new_reg("r15d"),
        ];
        let argregs = vec![
            new_reg("rdi"),
            new_reg("rsi"),
            new_reg("rdx"),
            new_reg("rcx"),
            new_reg("r8"),
            new_reg("r9"),
        ];
        let argregs8 = vec![
            new_reg("dil"),
            new_reg("sil"),
            new_reg("dl"),
            new_reg("cl"),
            new_reg("r8b"),
            new_reg("r9b"),
        ];
        let argregs32 = vec![
            new_reg("edi"),
            new_reg("esi"),
            new_reg("edx"),
            new_reg("ecx"),
            new_reg("r8d"),
            new_reg("r9d"),
        ];
        proof {
            assert(names(regs@) =~= reg_names(8));
            assert(names(regs8@) =~= reg_names(1));
            assert(names(regs32@) =~= reg_names(4));
            assert(names(argregs@) =~= argreg_names(8));
            assert(names(argregs8@) =~= argreg_names(1));
            assert(names(argregs32@) =~= argreg_names(4));
        }
        X86 { regs, regs8, regs32, argregs, argregs8, argregs32 }
    }

    /// The name of value register `ir_reg` at an operand width of `size`
    /// bytes.
    fn reg(&self, ir_reg: isize, size: usize) -> (name: String)
        requires
            is_reg(ir_reg as int),
        ensures
            name@ == reg_names(size as int)[ir_reg as int],
    {
        proof {
            use_type_invariant(self);
        }
        let r = if size == 1 {
            &self.regs8
        } else if size == 4 {
            &self.regs32
        } else {
            &self.regs
        };
        assert(names(r@) == reg_names(size as int));
        assert(names(r@)[ir_reg as int] == r@[ir_reg as int].name@);
        r[ir_reg as usize].name.clone()
    }

    /// The name of argument register `ir_reg` at an operand width of `size`
    /// bytes.
    fn argreg(&self, ir_reg: isize, size: usize) -> (name: String)
        requires
            0 <= ir_reg < NUM_ARGREGS,
        ensures
            name@ == argreg_names(size as int)[ir_reg as int],
    {
        proof {
            use_type_invariant(self);
        }
        let r = if size == 1 {
            &self.argregs8
        } else if size == 4 {
            &self.argregs32
        } else {
            &self.argregs
        };
        assert(names(r@) == argreg_names(size as int));
        assert(names(r@)[ir_reg as int] == r@[ir_reg as int].name@);
        r[ir_reg as usize].name.clone()
    }
}

/// Whether `r` is the index of a value register.
fn in_regs(r: isize) -> (b: bool)
    ensures
        b == is_reg(r as int),
{
    0 <= r && r < 7
}

/// Whether the emitter has a translation for `ir`.
pub fn can_translate(ir: &Ir) -> (b: bool)
    ensures
        b == translatable(ir@),
{
    match &ir.op {
        Op::DefFun(_) => true,
        Op::Nop => true,
        Op::Kill => false,
        Op::Imm => in_regs(ir.lhs),
        Op::Load => in_regs(ir.lhs),
        Op::Return => in_regs(ir.lhs),
        Op::StoreArg => 0 <= ir.lhs && ir.lhs < 6,
        Op::Call(name, args) => {
            if !in_regs(ir.lhs) || args.len() > NUM_ARGREGS {
                return false;
            }
            let ghost regs = ints(args@);
            let mut i: usize = 0;
            while i < args.len()
                invariant
                    i <= args.len(),
                    regs == ints(args@),
                    ir@.op == OpView::Call(name@, regs),
                    is_reg(ir.lhs as int),
                    args.len() <= NUM_ARGREGS,
                    forall|j: int| 0 <= j < i ==> is_reg(#[trigger] regs[j]),
                decreases args.len() - i,
            {
                if !in_regs(args[i]) {
                    assert(!is_reg(regs[i as int]));
                    return false;
                }
                i += 1;
            }
            true
        },
        Op::Mov | Op::Add | Op::Sub | Op::Mul | Op::Div => in_regs(ir.lhs) && in_regs(ir.rhs),
    }
}

impl X86 {
    /// Appends the moves that marshal the arguments of a call.
    fn emit_arg_moves(&self, args: &Vec<isize>, t: &mut String)
        requires
            args@.len() <= NUM_ARGREGS,
            forall|i: int| 0 <= i < args@.len() ==> is_reg(#[trigger] args@[i] as int),
        ensures
            final(t)@ == old(t)@ + arg_moves(ints(args@)),
    {
        let ghost regs = ints(args@);
        let mut i: usize = 0;
        assert(regs.take(0) =~= Seq::<int>::empty());
        assert(t@ =~= old(t)@ + arg_moves(regs.take(0)));
        while i < args.len()
            invariant
                i <= args.len(),
                args@.len() <= NUM_ARGREGS,
                regs == ints(args@),
                forall|j: int| 0 <= j < args@.len() ==> is_reg(#[trigger] args@[j] as int),
                t@ == old(t)@ + arg_moves(regs.take(i as int)),
            decreases args.len() - i,
        {
            let ghost before = t@;
            let a = self.argreg(i as isize, WIDTH);
            let r = self.reg(args[i], WIDTH);
            t.append("  mov ");
            t.append(a.as_str());
            t.append(", ");
            t.append(r.as_str());
            t.append("\n");
            proof {
                assert(regs.take(i + 1).drop_last() =~= regs.take(i as int));
                assert(regs.take(i + 1).last() == args@[i as int] as int);
                assert(t@ =~= before + arg_move(i as int, regs[i as int]));
                assert(t@ =~= old(t)@ + arg_moves(regs.take(i + 1)));
            }
            i += 1;
        }
        assert(regs.take(i as int) =~= regs);
    }

    /// The assembly text of one instruction. Fails when the instruction
    /// has no translation.
    pub fn translate(&self, ir: &Ir) -> (r: Result<String, CompileError>)
        ensures
            match r {
                Ok(text) => translatable(ir@) && text@ == translation(ir@),
                Err(e) => !translatable(ir@) && e == CompileError::UnknownOperation,
            },
    {
        if can_translate(ir) {
            Ok(self.render(ir))
        } else {
            Err(CompileError::UnknownOperation)
        }
    }

    /// The assembly text of an instruction that has a translation.
    fn render(&self, ir: &Ir) -> (t: String)
        requires
            translatable(ir@),
        ensures
            t@ == translation(ir@),
    {
        let mut t = String::new();
        match &ir.op {
            Op::DefFun(name) => {
                t.append(name.as_str());
                t.append(":\n");
                t.append("  push rbp\n");
                t.append("  mov rbp, rsp\n");
            },
            Op::Call(name, args) => {
                assert(forall|i: int|
                    0 <= i < args@.len() ==> ints(args@)[i] == args@[i] as int);
                self.emit_arg_moves(args, &mut t);
                let dst = self.reg(ir.lhs, WIDTH);
                t.append("  mov rax, 0\n");
                t.append("  call ");
                t.append(name.as_str());
                t.append("\n");
                t.append("  mov ");
                t.append(dst.as_str());
                t.append(", eax\n");
            },
            Op::Imm => {
                let dst = self.reg(ir.lhs, WIDTH);
                t.append("  mov ");
                t.append(dst.as_str());
                t.append(", ");
                push_signed(&mut t, ir.rhs);
                t.append("\n");
            },
            Op::StoreArg => {
                let src = self.argreg(ir.lhs, WIDTH);
                t.append("  mov dword ptr [rbp-");
                push_unsigned(&mut t, (ir.lhs + 1) as usize * WIDTH);
                t.append("], ");
                t.append(src.as_str());
                t.append("\n");
            },
            Op::Load => {
                let dst = self.reg(ir.lhs, WIDTH);
                t.append("  mov ");
                t.append(dst.as_str());
                t.append(", dword ptr [rbp-");
                push_unsigned(&mut t, (ir.lhs + 1) as usize * WIDTH);
                t.append("]\n");
            },
            Op::Mov => {
                let dst = self.reg(ir.lhs, WIDTH);
                let src = self.reg(ir.rhs, WIDTH);
                t.append("  mov ");
                t.append(dst.as_str());
                t.append(", ");
                t.append(src.as_str());
                t.append("\n");
            },
            Op::Return => {
                let src = self.reg(ir.lhs, WIDTH);
                t.append("  mov eax, ");
                t.append(src.as_str());
                t.append("\n");
            },
            Op::Add => {
                let dst = self.reg(ir.lhs, WIDTH);
                let src = self.reg(ir.rhs, WIDTH);
                t.append("  add ");
                t.append(dst.as_str());
                t.append(", ");
                t.append(src.as_str());
                t.append("\n");
            },
            Op::Sub => {
                let dst = self.reg(ir.lhs, WIDTH);
                let src = self.reg(ir.rhs, WIDTH);
                t.append("  sub ");
                t.append(dst.as_str());
                t.append(", ");
                t.append(src.as_str());
                t.append("\n");
            },
            Op::Mul => {
                let dst = self.reg(ir.lhs, WIDTH);
                let src = self.reg(ir.rhs, WIDTH);
                t.append("  mov eax, ");
                t.append(src.as_str());
                t.append("\n");
                t.append("  imul ");
                t.append(dst.as_str());
                t.append("\n");
                t.append("  mov ");
                t.append(dst.as_str());
                t.append(", eax\n");
            },
            Op::Div => {
                let dst = self.reg(ir.lhs, WIDTH);
                let src = self.reg(ir.rhs, WIDTH);
                t.append("  mov eax, ");
                t.append(dst.as_str());
                t.append("\n");
                t.append("  cqo\n");
                t.append("  idiv ");
                t.append(src.as_str());
                t.append("\n");
                t.append("  mov ");
                t.append(dst.as_str());
                t.append(", eax\n");
            },
            Op::Nop => {},
            Op::Kill => {},
        }
        assert(t@ =~= translation(ir@));
        t
    }

    /// The routine of one function: the translation of each instruction, in
    /// order, then the epilogue. Fails, with no output, when an instruction
    /// has no translation.
    pub fn emit_ir(&self, irv: &Vec<Ir>) -> (r: Result<String, CompileError>)
        ensures
            match r {
                Ok(text) => all_translatable(irv.deep_view()) && text@ == function_text(
                    irv.deep_view(),
                ),
                Err(e) => !all_translatable(irv.deep_view()) && e
                    == CompileError::UnknownOperation,
            },
    {
        let ghost code = irv.deep_view();
        let mut out = String::new();
        let mut i: usize = 0;
        assert(code.take(0) =~= Seq::<IrView>::empty());
        while i < irv.len()
            invariant
                i <= irv.len(),
                code == irv.deep_view(),
                all_translatable(code.take(i as int)),
                out@ == body_text(code.take(i as int)),
            decreases irv.len() - i,
        {
            let ir = &irv[i];
            assert(code[i as int] == ir@);
            let t = match self.translate(ir) {
                Ok(t) => t,
                Err(e) => {
                    return Err(e);
                },
            };
            out.append(t.as_str());
            proof {
                assert(code.take(i + 1).drop_last() =~= code.take(i as int));
                assert(code.take(i + 1).last() == ir@);
                assert forall|j: int| 0 <= j < i + 1 implies translatable(
                    #[trigger] code.take(i + 1)[j],
                ) by {
                    if j < i {
                        assert(code.take(i as int)[j] == code.take(i + 1)[j]);
                    }
                }
            }
            i += 1;
        }
        assert(code.take(i as int) =~= code);
        out.append("  pop rbp\n");
        out.append("  ret\n");
        Ok(out)
    }

    /// The whole translation unit for the allocated instruction lists of a
    /// program, one list per function. Fails, with no output, when any
    /// instruction has no translation.
    pub fn emit(&self, irvv: &Vec<Vec<Ir>>) -> (r: Result<String, CompileError>)
        ensures
            match r {
                Ok(text) => {
                    &&& forall|f: int|
                        0 <= f < irvv.deep_view().len() ==> all_translatable(
                            #[trigger] irvv.deep_view()[f],
                        )
                    &&& text@ == program_text(irvv.deep_view())
                },
                Err(e) => {
                    &&& exists|f: int|
                        0 <= f < irvv.deep_view().len() && !all_translatable(
                            #[trigger] irvv.deep_view()[f],
                        )
                    &&& e == CompileError::UnknownOperation
                },
            },
    {
        let ghost functions = irvv.deep_view();
        let mut out = String::new();
        out.append(".intel_syntax noprefix\n");
        out.append(".global main\n");
        let mut f: usize = 0;
        assert(functions.take(0) =~= Seq::<Seq<IrView>>::empty());
        assert(out@ =~= program_text(functions.take(0)));
        while f < irvv.len()
            invariant
                f <= irvv.len(),
                functions == irvv.deep_view(),
                forall|g: int| 0 <= g < f ==> all_translatable(#[trigger] functions[g]),
                out@ == program_text(functions.take(f as int)),
            decreases irvv.len() - f,
        {
            assert(functions[f as int] == irvv@[f as int].deep_view());
            match self.emit_ir(&irvv[f]) {
                Ok(text) => {
                    out.append(text.as_str());
                    proof {
                        assert(functions.take(f + 1).drop_last() =~= functions.take(f as int));
                        assert(functions.take(f + 1).last() == functions[f as int]);
                        assert(out@ =~= program_text(functions.take(f + 1)));
                    }
                },
                Err(e) => {
                    return Err(e);
                },
            }
            f += 1;
        }
        assert(functions.take(f as int) =~= functions);
        Ok(out)
    }
}

/// The moves of the first `k` arguments start the moves of all of them.
pub proof fn lemma_arg_moves_prefix(args: Seq<int>, k: int)
    requires
        0 <= k <= args.len(),
    ensures
        arg_moves(args.take(k)).is_prefix_of(arg_moves(args)),
    decreases args.len(),
{
    if k == args.len() {
        assert(args.take(k) =~= args);
    } else {
        lemma_arg_moves_prefix(args.drop_last(), k);
        assert(args.drop_last().take(k) =~= args.take(k));
    }
}

/// The arguments of a call are marshalled in their order: the move of the
/// argument at position `i` puts it into the argument register of position
/// `i`, directly behind the moves of the arguments before it; and these
/// moves stand at the start of the moves of the call.
pub proof fn lemma_call_moves_in_order(args: Seq<int>, i: int)
    requires
        0 <= i < args.len(),
    ensures
        arg_moves(args.take(i + 1)) == arg_moves(args.take(i)) + arg_move(i, args[i]),
        arg_moves(args.take(i + 1)).is_prefix_of(arg_moves(args)),
{
    assert(args.take(i + 1).drop_last() =~= args.take(i));
    assert(args.take(i + 1).last() == args[i]);
    lemma_arg_moves_prefix(args, i + 1);
}

/// The translation of a call starts with the moves of its arguments.
pub proof fn lemma_call_starts_with_moves(ir: IrView)
    requires
        ir.op is Call,
    ensures
        arg_moves(ir.op->Call_1).is_prefix_of(translation(ir)),
{
}

} // verus!
