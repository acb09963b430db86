use toycc::error::CompileError;
use toycc::gen_ir::GenIr;
use toycc::gen_x86::X86;
use toycc::lexer::Lexer;
use toycc::parser::Parser;
use toycc::regalloc::RegAlloc;

fn compile(code: &str) -> Result<String, CompileError> {
    let tokens = Lexer::new(code).run().unwrap();
    let nodes = Parser::new().run(tokens).unwrap();
    let ir = GenIr::new().run(&nodes)?;
    let allocated = RegAlloc::new().run(ir)?;
    X86::new().emit(&allocated)
}

#[test]
fn compiles_main_returning_42() {
    assert_eq!(
        compile("int main(){ return 42; }").unwrap(),
        ".intel_syntax noprefix\n\
         .global main\n\
         main:\n\
         \x20 push rbp\n\
         \x20 mov rbp, rsp\n\
         \x20 mov r10d, 42\n\
         \x20 mov eax, r10d\n\
         \x20 pop rbp\n\
         \x20 ret\n"
    );
}

#[test]
fn compiles_product_then_sum() {
    assert_eq!(
        compile("int main(){ return 2*3+4; }").unwrap(),
        ".intel_syntax noprefix\n\
         .global main\n\
         main:\n\
         \x20 push rbp\n\
         \x20 mov rbp, rsp\n\
         \x20 mov r10d, 2\n\
         \x20 mov r11d, 3\n\
         \x20 mov eax, r11d\n\
         \x20 imul r10d\n\
         \x20 mov r10d, eax\n\
         \x20 mov r11d, 4\n\
         \x20 add r10d, r11d\n\
         \x20 mov eax, r10d\n\
         \x20 pop rbp\n\
         \x20 ret\n"
    );
}

#[test]
fn compiles_a_function_with_two_parameters_and_a_call() {
    assert_eq!(
        compile("int add(int a, int b){ return a+b; } int main(){ return add(1, 2); }").unwrap(),
        ".intel_syntax noprefix\n\
         .global main\n\
         add:\n\
         \x20 push rbp\n\
         \x20 mov rbp, rsp\n\
         \x20 mov dword ptr [rbp-4], edi\n\
         \x20 mov dword ptr [rbp-8], esi\n\
         \x20 mov r10d, dword ptr [rbp-4]\n\
         \x20 mov r11d, dword ptr [rbp-8]\n\
         \x20 add r10d, r11d\n\
         \x20 mov eax, r10d\n\
         \x20 pop rbp\n\
         \x20 ret\n\
         main:\n\
         \x20 push rbp\n\
         \x20 mov rbp, rsp\n\
         \x20 mov r10d, 1\n\
         \x20 mov r11d, 2\n\
         \x20 mov edi, r10d\n\
         \x20 mov esi, r11d\n\
         \x20 mov rax, 0\n\
         \x20 call add\n\
         \x20 mov ebx, eax\n\
         \x20 mov eax, ebx\n\
         \x20 pop rbp\n\
         \x20 ret\n"
    );
}

#[test]
fn a_call_that_keeps_eight_values_alive_exhausts_the_pool() {
    assert_eq!(
        compile("int main(){ return f(1, 2, 3, 4, 5, 6, 7); }"),
        Err(CompileError::PhysicalRegistersExhausted)
    );
    assert!(compile("int main(){ return f(1, 2, 3, 4, 5, 6); }").is_ok());
}

#[test]
fn a_long_sum_needs_two_slots_only() {
    let text = compile("int main(){ return 1+2+3+4+5+6+7+8+9+10; }").unwrap();
    assert!(text.contains("  mov r11d, 10\n"));
    assert!(!text.contains("ebx"));
}

#[test]
fn seven_parameters_have_no_seventh_argument_register() {
    assert_eq!(
        compile("int f(int a, int b, int c, int d, int e, int g, int h){ return a; }"),
        Err(CompileError::UnknownOperation)
    );
}
