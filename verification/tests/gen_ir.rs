use toycc::error::CompileError;
use toycc::gen_ir::{GenIr, Ir, Op};
use toycc::lexer::Lexer;
use toycc::node::{BinOp, Ctype, Node, NodeBase};
use toycc::parser::Parser;

fn lower(code: &str) -> Result<Vec<Vec<Ir>>, CompileError> {
    let tokens = Lexer::new(code).run().unwrap();
    let nodes = Parser::new().run(tokens).unwrap();
    GenIr::new().run(&nodes)
}

fn ir(op: Op, lhs: isize, rhs: isize) -> Ir {
    Ir::new(op, lhs, rhs)
}

fn def(name: &str) -> Ir {
    Ir::new(Op::DefFun(name.to_string()), -1, -1)
}

fn num(n: usize) -> Node {
    Node::new(NodeBase::Number(n))
}

fn ident(s: &str) -> Node {
    Node::new(NodeBase::Ident(s.to_string()))
}

fn body(stmts: Vec<Node>) -> Node {
    Node::new(NodeBase::Statements(
        stmts.into_iter().map(Box::new).collect(),
    ))
}

fn fun(name: Node, params: Vec<(Ctype, Node)>, body: Node) -> Node {
    Node::new(NodeBase::DefFun(
        Ctype::Int,
        Box::new(name),
        params,
        Box::new(body),
    ))
}

#[test]
fn ir_new_keeps_its_parts() {
    let i = Ir::new(Op::Imm, 3, 42);
    assert_eq!(i.op, Op::Imm);
    assert_eq!(i.lhs, 3);
    assert_eq!(i.rhs, 42);
}

#[test]
fn main_returning_42() {
    assert_eq!(
        lower("int main(){ return 42; }").unwrap(),
        vec![vec![
            def("main"),
            ir(Op::Imm, 0, 42),
            ir(Op::Return, 0, 0),
            ir(Op::Kill, 0, -1),
        ]]
    );
}

#[test]
fn product_then_sum() {
    assert_eq!(
        lower("int main(){ return 2*3+4; }").unwrap(),
        vec![vec![
            def("main"),
            ir(Op::Imm, 0, 2),
            ir(Op::Imm, 1, 3),
            ir(Op::Mul, 0, 1),
            ir(Op::Kill, 1, -1),
            ir(Op::Imm, 2, 4),
            ir(Op::Add, 0, 2),
            ir(Op::Kill, 2, -1),
            ir(Op::Return, 0, 0),
            ir(Op::Kill, 0, -1),
        ]]
    );
}

#[test]
fn every_operator_has_its_instruction() {
    assert_eq!(
        lower("int main(){ return 8-6/2; }").unwrap(),
        vec![vec![
            def("main"),
            ir(Op::Imm, 0, 8),
            ir(Op::Imm, 1, 6),
            ir(Op::Imm, 2, 2),
            ir(Op::Div, 1, 2),
            ir(Op::Kill, 2, -1),
            ir(Op::Sub, 0, 1),
            ir(Op::Kill, 1, -1),
            ir(Op::Return, 0, 0),
            ir(Op::Kill, 0, -1),
        ]]
    );
}

#[test]
fn parameters_are_stored_right_behind_the_mark() {
    assert_eq!(
        lower("int f(int a, int b){ return a+b; }").unwrap(),
        vec![vec![
            def("f"),
            ir(Op::StoreArg, 0, -1),
            ir(Op::StoreArg, 1, -1),
            ir(Op::Load, 0, -1),
            ir(Op::Load, 1, -1),
            ir(Op::Add, 0, 1),
            ir(Op::Kill, 1, -1),
            ir(Op::Return, 0, 0),
            ir(Op::Kill, 0, -1),
        ]]
    );
}

#[test]
fn a_call_takes_its_result_register_first() {
    assert_eq!(
        lower("int main(){ return f(1, 2+3, g()); }").unwrap(),
        vec![vec![
            def("main"),
            ir(Op::Imm, 1, 1),
            ir(Op::Imm, 2, 2),
            ir(Op::Imm, 3, 3),
            ir(Op::Add, 2, 3),
            ir(Op::Kill, 3, -1),
            ir(Op::Call("g".to_string(), vec![]), 4, -1),
            ir(Op::Call("f".to_string(), vec![1, 2, 4]), 0, -1),
            ir(Op::Return, 0, 0),
            ir(Op::Kill, 0, -1),
        ]]
    );
}

#[test]
fn an_expression_statement_is_evaluated_and_killed() {
    assert_eq!(
        lower("int main(){ 1; f(); return 2; }").unwrap(),
        vec![vec![
            def("main"),
            ir(Op::Imm, 0, 1),
            ir(Op::Kill, 0, -1),
            ir(Op::Call("f".to_string(), vec![]), 1, -1),
            ir(Op::Kill, 1, -1),
            ir(Op::Imm, 2, 2),
            ir(Op::Return, 2, 0),
            ir(Op::Kill, 2, -1),
        ]]
    );
}

#[test]
fn each_function_counts_its_registers_from_zero() {
    assert_eq!(
        lower("int f(){ return 1+2; } int main(){ return 3; }").unwrap(),
        vec![
            vec![
                def("f"),
                ir(Op::Imm, 0, 1),
                ir(Op::Imm, 1, 2),
                ir(Op::Add, 0, 1),
                ir(Op::Kill, 1, -1),
                ir(Op::Return, 0, 0),
                ir(Op::Kill, 0, -1),
            ],
            vec![
                def("main"),
                ir(Op::Imm, 0, 3),
                ir(Op::Return, 0, 0),
                ir(Op::Kill, 0, -1),
            ],
        ]
    );
}

#[test]
fn an_empty_program_and_an_empty_body() {
    assert_eq!(GenIr::new().run(&vec![]).unwrap(), Vec::<Vec<Ir>>::new());
    assert_eq!(lower("int main(){}").unwrap(), vec![vec![def("main")]]);
}

#[test]
fn nested_blocks_are_lowered_in_order() {
    let inner = body(vec![num(1), num(2)]);
    let nodes = vec![fun(ident("main"), vec![], body(vec![inner, num(3)]))];
    assert_eq!(
        GenIr::new().run(&nodes).unwrap(),
        vec![vec![
            def("main"),
            ir(Op::Imm, 0, 1),
            ir(Op::Kill, 0, -1),
            ir(Op::Imm, 1, 2),
            ir(Op::Kill, 1, -1),
            ir(Op::Imm, 2, 3),
            ir(Op::Kill, 2, -1),
        ]]
    );
}

#[test]
fn a_body_that_is_one_statement_is_lowered_too() {
    let nodes = vec![fun(
        ident("main"),
        vec![],
        Node::new(NodeBase::Return(Box::new(num(5)))),
    )];
    assert_eq!(
        GenIr::new().run(&nodes).unwrap(),
        vec![vec![
            def("main"),
            ir(Op::Imm, 0, 5),
            ir(Op::Return, 0, 0),
            ir(Op::Kill, 0, -1),
        ]]
    );
}

#[test]
fn a_literal_too_large_for_a_signed_word_wraps() {
    let nodes = vec![fun(ident("main"), vec![], body(vec![num(usize::MAX)]))];
    assert_eq!(
        GenIr::new().run(&nodes).unwrap(),
        vec![vec![def("main"), ir(Op::Imm, 0, -1), ir(Op::Kill, 0, -1)]]
    );
}

#[test]
fn a_top_level_node_that_defines_no_function_is_malformed() {
    assert_eq!(
        GenIr::new().run(&vec![num(1)]),
        Err(CompileError::MalformedAst)
    );
    assert_eq!(
        GenIr::new().run(&vec![body(vec![])]),
        Err(CompileError::MalformedAst)
    );
}

#[test]
fn a_function_whose_name_is_no_identifier_is_malformed() {
    let nodes = vec![fun(num(1), vec![], body(vec![]))];
    assert_eq!(GenIr::new().run(&nodes), Err(CompileError::MalformedAst));
}

#[test]
fn a_statement_where_an_expression_belongs_is_malformed() {
    let ret = Node::new(NodeBase::Return(Box::new(num(1))));
    let nested = Node::new(NodeBase::Return(Box::new(ret)));
    let nodes = vec![fun(ident("main"), vec![], body(vec![nested]))];
    assert_eq!(GenIr::new().run(&nodes), Err(CompileError::MalformedAst));

    let block_operand = Node::new(NodeBase::BinaryOp(
        BinOp::Add,
        Box::new(num(1)),
        Box::new(body(vec![])),
    ));
    let nodes = vec![fun(ident("main"), vec![], body(vec![block_operand]))];
    assert_eq!(GenIr::new().run(&nodes), Err(CompileError::MalformedAst));

    let def_argument = Node::new(NodeBase::Call(
        "f".to_string(),
        vec![fun(ident("g"), vec![], body(vec![]))],
    ));
    let nodes = vec![fun(ident("main"), vec![], body(vec![def_argument]))];
    assert_eq!(GenIr::new().run(&nodes), Err(CompileError::MalformedAst));
}

#[test]
fn the_first_failure_fails_the_program() {
    let good = fun(ident("f"), vec![], body(vec![num(1)]));
    let bad = fun(num(0), vec![], body(vec![]));
    assert_eq!(
        GenIr::new().run(&vec![good, bad]),
        Err(CompileError::MalformedAst)
    );
}

#[test]
fn a_new_generator_has_nothing_finished() {
    assert_eq!(GenIr::new(), GenIr::new());
    assert_eq!(GenIr::new().run(&vec![]).unwrap().len(), 0);
    let nodes = vec![fun(ident("f"), vec![], body(vec![num(9)]))];
    assert_eq!(
        GenIr::new().run(&nodes).unwrap(),
        vec![vec![def("f"), ir(Op::Imm, 0, 9), ir(Op::Kill, 0, -1)]]
    );
}
