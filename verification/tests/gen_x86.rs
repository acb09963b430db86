use toycc::error::CompileError;
use toycc::gen_ir::{Ir, Op};
use toycc::gen_x86::{can_translate, X86};

fn ir(op: Op, lhs: isize, rhs: isize) -> Ir {
    Ir::new(op, lhs, rhs)
}

fn def(name: &str) -> Ir {
    Ir::new(Op::DefFun(name.to_string()), -1, -1)
}

fn text(i: Ir) -> String {
    assert!(can_translate(&i));
    X86::new().translate(&i).unwrap()
}

#[test]
fn main_returning_42_in_assembly() {
    let code = vec![vec![
        def("main"),
        ir(Op::Imm, 0, 42),
        ir(Op::Return, 0, 0),
        ir(Op::Nop, 0, -1),
    ]];
    assert_eq!(
        X86::new().emit(&code).unwrap(),
        ".intel_syntax noprefix\n\
         .global main\n\
         main:\n\
         \x20 push rbp\n\
         \x20 mov rbp, rsp\n\
         \x20 mov r10d, 42\n\
         \x20 mov eax, r10d\n\
         \x20 pop rbp\n\
         \x20 ret\n"
    );
}

#[test]
fn an_empty_program_is_only_the_header() {
    assert_eq!(
        X86::new().emit(&vec![]).unwrap(),
        ".intel_syntax noprefix\n.global main\n"
    );
}

#[test]
fn an_empty_function_is_only_the_epilogue() {
    assert_eq!(X86::new().emit_ir(&vec![]).unwrap(), "  pop rbp\n  ret\n");
}

#[test]
fn one_routine_per_function_in_order() {
    let code = vec![
        vec![def("f"), ir(Op::Imm, 1, 7)],
        vec![def("main"), ir(Op::Imm, 2, 8)],
    ];
    assert_eq!(
        X86::new().emit(&code).unwrap(),
        ".intel_syntax noprefix\n\
         .global main\n\
         f:\n\
         \x20 push rbp\n\
         \x20 mov rbp, rsp\n\
         \x20 mov r11d, 7\n\
         \x20 pop rbp\n\
         \x20 ret\n\
         main:\n\
         \x20 push rbp\n\
         \x20 mov rbp, rsp\n\
         \x20 mov ebx, 8\n\
         \x20 pop rbp\n\
         \x20 ret\n"
    );
}

#[test]
fn every_value_register_has_its_name() {
    let names = ["r10d", "r11d", "ebx", "r12d", "r13d", "r14d", "r15d"];
    for (slot, name) in names.iter().enumerate() {
        assert_eq!(
            text(ir(Op::Return, slot as isize, 0)),
            format!("  mov eax, {}\n", name)
        );
    }
}

#[test]
fn every_argument_register_has_its_name() {
    let names = ["edi", "esi", "edx", "ecx", "r8d", "r9d"];
    for (slot, name) in names.iter().enumerate() {
        assert_eq!(
            text(ir(Op::StoreArg, slot as isize, -1)),
            format!("  mov dword ptr [rbp-{}], {}\n", (slot + 1) * 4, name)
        );
    }
}

#[test]
fn immediates_are_written_in_decimal() {
    assert_eq!(text(ir(Op::Imm, 0, 0)), "  mov r10d, 0\n");
    assert_eq!(text(ir(Op::Imm, 1, 1234567890)), "  mov r11d, 1234567890\n");
    assert_eq!(text(ir(Op::Imm, 2, -1)), "  mov ebx, -1\n");
    assert_eq!(
        text(ir(Op::Imm, 3, isize::MIN)),
        format!("  mov r12d, {}\n", isize::MIN)
    );
}

#[test]
fn loads_and_stores_address_the_slot_of_their_index() {
    assert_eq!(text(ir(Op::Load, 0, -1)), "  mov r10d, dword ptr [rbp-4]\n");
    assert_eq!(text(ir(Op::Load, 2, -1)), "  mov ebx, dword ptr [rbp-12]\n");
    assert_eq!(text(ir(Op::Load, 6, -1)), "  mov r15d, dword ptr [rbp-28]\n");
    assert_eq!(text(ir(Op::StoreArg, 0, -1)), "  mov dword ptr [rbp-4], edi\n");
    assert_eq!(text(ir(Op::StoreArg, 1, -1)), "  mov dword ptr [rbp-8], esi\n");
    assert_eq!(text(ir(Op::StoreArg, 5, -1)), "  mov dword ptr [rbp-24], r9d\n");
}

#[test]
fn arithmetic_and_moves() {
    assert_eq!(text(ir(Op::Mov, 0, 1)), "  mov r10d, r11d\n");
    assert_eq!(text(ir(Op::Add, 1, 2)), "  add r11d, ebx\n");
    assert_eq!(text(ir(Op::Sub, 3, 4)), "  sub r12d, r13d\n");
    assert_eq!(
        text(ir(Op::Mul, 0, 1)),
        "  mov eax, r11d\n  imul r10d\n  mov r10d, eax\n"
    );
    assert_eq!(
        text(ir(Op::Div, 5, 6)),
        "  mov eax, r14d\n  cqo\n  idiv r15d\n  mov r14d, eax\n"
    );
}

#[test]
fn a_function_mark_is_a_label_and_the_prologue() {
    assert_eq!(text(def("add")), "add:\n  push rbp\n  mov rbp, rsp\n");
}

#[test]
fn a_nop_is_no_text() {
    assert_eq!(text(ir(Op::Nop, 100, 100)), "");
}

#[test]
fn call_arguments_go_to_the_argument_registers_in_order() {
    assert_eq!(
        text(ir(Op::Call("f".to_string(), vec![3, 0, 5]), 1, -1)),
        "  mov edi, r12d\n\
         \x20 mov esi, r10d\n\
         \x20 mov edx, r14d\n\
         \x20 mov rax, 0\n\
         \x20 call f\n\
         \x20 mov r11d, eax\n"
    );
}

#[test]
fn a_call_without_arguments_and_one_with_six() {
    assert_eq!(
        text(ir(Op::Call("g".to_string(), vec![]), 0, -1)),
        "  mov rax, 0\n  call g\n  mov r10d, eax\n"
    );
    assert_eq!(
        text(ir(Op::Call("h".to_string(), vec![0, 1, 2, 3, 4, 5]), 6, -1)),
        "  mov edi, r10d\n\
         \x20 mov esi, r11d\n\
         \x20 mov edx, ebx\n\
         \x20 mov ecx, r12d\n\
         \x20 mov r8d, r13d\n\
         \x20 mov r9d, r14d\n\
         \x20 mov rax, 0\n\
         \x20 call h\n\
         \x20 mov r15d, eax\n"
    );
}

#[test]
fn two_parameters_are_stored_before_anything_else() {
    let code = vec![
        def("f"),
        ir(Op::StoreArg, 0, -1),
        ir(Op::StoreArg, 1, -1),
        ir(Op::Load, 0, -1),
        ir(Op::Return, 0, 0),
        ir(Op::Nop, 0, -1),
    ];
    assert_eq!(
        X86::new().emit_ir(&code).unwrap(),
        "f:\n\
         \x20 push rbp\n\
         \x20 mov rbp, rsp\n\
         \x20 mov dword ptr [rbp-4], edi\n\
         \x20 mov dword ptr [rbp-8], esi\n\
         \x20 mov r10d, dword ptr [rbp-4]\n\
         \x20 mov eax, r10d\n\
         \x20 pop rbp\n\
         \x20 ret\n"
    );
}

#[test]
fn a_kill_has_no_translation() {
    assert!(!can_translate(&ir(Op::Kill, 0, -1)));
    assert_eq!(
        X86::new().translate(&ir(Op::Kill, 0, -1)),
        Err(CompileError::UnknownOperation)
    );
    assert_eq!(
        X86::new().emit_ir(&vec![def("f"), ir(Op::Kill, 0, -1)]),
        Err(CompileError::UnknownOperation)
    );
    assert_eq!(
        X86::new().emit(&vec![vec![def("f")], vec![ir(Op::Kill, 0, -1)]]),
        Err(CompileError::UnknownOperation)
    );
}

#[test]
fn a_register_outside_the_tables_has_no_translation() {
    assert!(!can_translate(&ir(Op::Imm, 7, 0)));
    assert!(!can_translate(&ir(Op::Imm, -1, 0)));
    assert!(!can_translate(&ir(Op::Load, 7, 0)));
    assert!(!can_translate(&ir(Op::Return, 8, 0)));
    assert!(!can_translate(&ir(Op::Add, 0, 7)));
    assert!(!can_translate(&ir(Op::Mov, 7, 0)));
    assert!(!can_translate(&ir(Op::StoreArg, 6, -1)));
    assert!(!can_translate(&ir(Op::StoreArg, -1, -1)));
    assert!(!can_translate(&ir(Op::Call("f".to_string(), vec![0, 7]), 0, -1)));
    assert!(!can_translate(&ir(Op::Call("f".to_string(), vec![]), 7, -1)));
    assert!(!can_translate(&ir(
        Op::Call("f".to_string(), vec![0, 0, 0, 0, 0, 0, 0]),
        0,
        -1
    )));
    assert!(can_translate(&ir(Op::StoreArg, 5, -1)));
    assert!(can_translate(&ir(Op::Imm, 6, 0)));
    assert_eq!(
        X86::new().emit_ir(&vec![ir(Op::Imm, 7, 0)]),
        Err(CompileError::UnknownOperation)
    );
}
