use toycc::lexer::{Lexer, Token};
use toycc::node::{BinOp, Ctype, Node, NodeBase};
use toycc::parser::Parser;

fn parse(code: &str) -> Result<Vec<Node>, ()> {
    let tokens = Lexer::new(code).run().unwrap();
    Parser::new().run(tokens)
}

fn num(n: usize) -> Node {
    Node::new(NodeBase::Number(n))
}

fn ident(s: &str) -> Node {
    Node::new(NodeBase::Ident(s.to_string()))
}

fn bin(op: BinOp, lhs: Node, rhs: Node) -> Node {
    Node::new(NodeBase::BinaryOp(op, Box::new(lhs), Box::new(rhs)))
}

fn ret(e: Node) -> Node {
    Node::new(NodeBase::Return(Box::new(e)))
}

fn fun(name: &str, params: Vec<(Ctype, Node)>, stmts: Vec<Node>) -> Node {
    Node::new(NodeBase::DefFun(
        Ctype::Int,
        Box::new(ident(name)),
        params,
        Box::new(Node::new(NodeBase::Statements(
            stmts.into_iter().map(Box::new).collect(),
        ))),
    ))
}

#[test]
fn parses_main_returning_a_number() {
    assert_eq!(
        parse("int main(){ return 42; }").unwrap(),
        vec![fun("main", vec![], vec![ret(num(42))])]
    );
}

#[test]
fn product_binds_tighter_than_sum() {
    assert_eq!(
        parse("int main(){ return 2*3+4; }").unwrap(),
        vec![fun(
            "main",
            vec![],
            vec![ret(bin(
                BinOp::Add,
                bin(BinOp::Mul, num(2), num(3)),
                num(4)
            ))]
        )]
    );
    assert_eq!(
        parse("int main(){ return 2+3*4; }").unwrap(),
        vec![fun(
            "main",
            vec![],
            vec![ret(bin(
                BinOp::Add,
                num(2),
                bin(BinOp::Mul, num(3), num(4))
            ))]
        )]
    );
}

#[test]
fn operators_group_from_the_left() {
    assert_eq!(
        parse("int main(){ return 8-3-2; }").unwrap(),
        vec![fun(
            "main",
            vec![],
            vec![ret(bin(
                BinOp::Sub,
                bin(BinOp::Sub, num(8), num(3)),
                num(2)
            ))]
        )]
    );
    assert_eq!(
        parse("int main(){ return 8/4*2; }").unwrap(),
        vec![fun(
            "main",
            vec![],
            vec![ret(bin(
                BinOp::Mul,
                bin(BinOp::Div, num(8), num(4)),
                num(2)
            ))]
        )]
    );
}

#[test]
fn parses_parameters_and_several_functions() {
    assert_eq!(
        parse("int add(int a, int b){ return a+b; } int main(){ return add(1, 2); }").unwrap(),
        vec![
            fun(
                "add",
                vec![(Ctype::Int, ident("a")), (Ctype::Int, ident("b"))],
                vec![ret(bin(BinOp::Add, ident("a"), ident("b")))]
            ),
            fun(
                "main",
                vec![],
                vec![ret(Node::new(NodeBase::Call(
                    "add".to_string(),
                    vec![num(1), num(2)]
                )))]
            ),
        ]
    );
}

#[test]
fn parameters_need_no_comma() {
    assert_eq!(
        parse("int f(int a int b){ return a; }").unwrap(),
        vec![fun(
            "f",
            vec![(Ctype::Int, ident("a")), (Ctype::Int, ident("b"))],
            vec![ret(ident("a"))]
        )]
    );
}

#[test]
fn call_arguments() {
    let call = |args: Vec<Node>| {
        vec![fun(
            "main",
            vec![],
            vec![Node::new(NodeBase::Call("f".to_string(), args))],
        )]
    };
    assert_eq!(parse("int main(){ f(); }").unwrap(), call(vec![]));
    assert_eq!(parse("int main(){ f(1); }").unwrap(), call(vec![num(1)]));
    assert_eq!(parse("int main(){ f(1,); }").unwrap(), call(vec![num(1)]));
    assert_eq!(
        parse("int main(){ f(1, g(2), x+1); }").unwrap(),
        call(vec![
            num(1),
            Node::new(NodeBase::Call("g".to_string(), vec![num(2)])),
            bin(BinOp::Add, ident("x"), num(1)),
        ])
    );
    assert_eq!(parse("int main(){ f(1 2); }"), Err(()));
}

#[test]
fn several_statements_in_a_body() {
    assert_eq!(
        parse("int main(){ 1; f(2); return 3; }").unwrap(),
        vec![fun(
            "main",
            vec![],
            vec![
                num(1),
                Node::new(NodeBase::Call("f".to_string(), vec![num(2)])),
                ret(num(3)),
            ]
        )]
    );
}

#[test]
fn no_tokens_but_the_end_mark_is_an_empty_program() {
    assert_eq!(parse("").unwrap(), vec![]);
    assert_eq!(Parser::new().run(vec![Token::EOF]).unwrap(), vec![]);
}

#[test]
fn the_end_of_the_tokens_counts_as_the_end_mark() {
    assert_eq!(Parser::new().run(vec![]).unwrap(), vec![]);
    let mut tokens = Lexer::new("int main(){ return 1; }").run().unwrap();
    assert_eq!(tokens.pop(), Some(Token::EOF));
    assert_eq!(
        Parser::new().run(tokens).unwrap(),
        vec![fun("main", vec![], vec![ret(num(1))])]
    );
}

#[test]
fn syntax_errors_are_rejected() {
    assert_eq!(parse("main(){ return 1; }"), Err(()));
    assert_eq!(parse("int (){ return 1; }"), Err(()));
    assert_eq!(parse("int main){ return 1; }"), Err(()));
    assert_eq!(parse("int main({ return 1; }"), Err(()));
    assert_eq!(parse("int main() return 1; }"), Err(()));
    assert_eq!(parse("int main(){ return 1 }"), Err(()));
    assert_eq!(parse("int main(){ return 1;"), Err(()));
    assert_eq!(parse("int main(){ return ; }"), Err(()));
    assert_eq!(parse("int main(){ return 1+; }"), Err(()));
    assert_eq!(parse("int main(){ return *2; }"), Err(()));
    assert_eq!(parse("int main(){ return (1); }"), Err(()));
    assert_eq!(parse("int main(){ return f(1; }"), Err(()));
    assert_eq!(parse("int main(a){ return 1; }"), Err(()));
    assert_eq!(parse("int main(int){ return 1; }"), Err(()));
    assert_eq!(parse("int main(){ return 1; } 2"), Err(()));
    assert_eq!(parse("int main(){ x = 1; }"), Err(()));
}

#[test]
fn a_type_keyword_that_names_no_type_is_rejected() {
    let tokens = vec![
        Token::Ctype("long".to_string()),
        Token::Ident("main".to_string()),
        Token::LeftParen,
        Token::RightParen,
        Token::LeftCurlyBrace,
        Token::RightCurlyBrace,
        Token::EOF,
    ];
    assert_eq!(Parser::new().run(tokens), Err(()));
}

#[test]
fn an_end_mark_inside_a_function_is_rejected() {
    let tokens = vec![
        Token::Ctype("int".to_string()),
        Token::Ident("main".to_string()),
        Token::LeftParen,
        Token::RightParen,
        Token::LeftCurlyBrace,
        Token::EOF,
        Token::RightCurlyBrace,
        Token::EOF,
    ];
    assert_eq!(Parser::new().run(tokens), Err(()));
}

#[test]
fn ctype_knows_int_only() {
    assert_eq!(Node::ctype("int"), Ok(Ctype::Int));
    assert_eq!(Node::ctype("Int"), Err(()));
    assert_eq!(Node::ctype(""), Err(()));
    assert_eq!(Node::ctype("integer"), Err(()));
}

#[test]
fn node_new_wraps_the_shape() {
    assert_eq!(Node::new(NodeBase::Number(1)).base, NodeBase::Number(1));
}
