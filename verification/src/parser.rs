//! The parser: tokens to syntax trees, one per function definition.

use crate::lexer::{Token, TokenView};
use crate::node::{boxed_trees, param_trees, trees, BinOp, Ctype, Node, NodeBase, NodeView};
use vstd::prelude::*;

verus! {

/// The token at `pos`. Behind the last token there is only the end mark.
pub open spec fn at(ts: Seq<TokenView>, pos: int) -> TokenView {
    if 0 <= pos < ts.len() {
        ts[pos]
    } else {
        TokenView::EOF
    }
}

/// Whether a parse that started at `pos` ended at `end`, behind `pos` and
/// within the tokens. Every parse of an expression, a statement or a
/// function definition ends so.
pub open spec fn advanced(ts: Seq<TokenView>, pos: int, end: int) -> bool {
    pos < end <= ts.len()
}

/// A number literal at `pos`.
pub open spec fn parse_literal(ts: Seq<TokenView>, pos: int) -> Option<(NodeView, int)> {
    match at(ts, pos) {
        TokenView::Num(n) => Some((NodeView::Number(n), pos + 1)),
        _ => None,
    }
}

/// An identifier at `pos`.
pub open spec fn parse_name(ts: Seq<TokenView>, pos: int) -> Option<(NodeView, int)> {
    match at(ts, pos) {
        TokenView::Ident(s) => Some((NodeView::Ident(s), pos + 1)),
        _ => None,
    }
}

/// A type keyword at `pos`.
pub open spec fn parse_type(ts: Seq<TokenView>, pos: int) -> Option<(Ctype, int)> {
    match at(ts, pos) {
        TokenView::Ctype(s) => if s == "int"@ {
            Some((Ctype::Int, pos + 1))
        } else {
            None
        },
        _ => None,
    }
}

/// An expression at `pos`.
pub open spec fn parse_expr(ts: Seq<TokenView>, pos: int) -> Option<(NodeView, int)>
    decreases ts.len() - pos, 5int,
{
    parse_sum(ts, pos)
}

/// A sum at `pos`: products joined by `+` and `-`, grouped from the left.
pub open spec fn parse_sum(ts: Seq<TokenView>, pos: int) -> Option<(NodeView, int)>
    decreases ts.len() - pos, 4int,
{
    match parse_product(ts, pos) {
        Some((lhs, end)) => if advanced(ts, pos, end) {
            parse_sum_rest(ts, lhs, end)
        } else {
            None
        },
        None => None,
    }
}

/// The rest of a sum behind its left operand `lhs`.
pub open spec fn parse_sum_rest(ts: Seq<TokenView>, lhs: NodeView, pos: int) -> Option<
    (NodeView, int),
>
    decreases ts.len() - pos, 0int,
{
    match at(ts, pos) {
        TokenView::Plus => match parse_product(ts, pos + 1) {
            Some((rhs, end)) => if advanced(ts, pos, end) {
                parse_sum_rest(
                    ts,
                    NodeView::BinaryOp(BinOp::Add, Box::new(lhs), Box::new(rhs)),
                    end,
                )
            } else {
                None
            },
            None => None,
        },
        TokenView::Minus => match parse_product(ts, pos + 1) {
            Some((rhs, end)) => if advanced(ts, pos, end) {
                parse_sum_rest(
                    ts,
                    NodeView::BinaryOp(BinOp::Sub, Box::new(lhs), Box::new(rhs)),
                    end,
                )
            } else {
                None
            },
            None => None,
        },
        _ => Some((lhs, pos)),
    }
}

/// A product at `pos`: terms joined by `*` and `/`, grouped from the
/// left.
pub open spec fn parse_product(ts: Seq<TokenView>, pos: int) -> Option<(NodeView, int)>
    decreases ts.len() - pos, 3int,
{
    match parse_term(ts, pos) {
        Some((lhs, end)) => if advanced(ts, pos, end) {
            parse_product_rest(ts, lhs, end)
        } else {
            None
        },
        None => None,
    }
}

/// The rest of a product behind its left operand `lhs`.
pub open spec fn parse_product_rest(ts: Seq<TokenView>, lhs: NodeView, pos: int) -> Option<
    (NodeView, int),
>
    decreases ts.len() - pos, 0int,
{
    match at(ts, pos) {
        TokenView::Asterisk => match parse_term(ts, pos + 1) {
            Some((rhs, end)) => if advanced(ts, pos, end) {
                parse_product_rest(
                    ts,
                    NodeView::BinaryOp(BinOp::Mul, Box::new(lhs), Box::new(rhs)),
                    end,
                )
            } else {
                None
            },
            None => None,
        },
        TokenView::Slash => match parse_term(ts, pos + 1) {
            Some((rhs, end)) => if advanced(ts, pos, end) {
                parse_product_rest(
                    ts,
                    NodeView::BinaryOp(BinOp::Div, Box::new(lhs), Box::new(rhs)),
                    end,
                )
            } else {
                None
            },
            None => None,
        },
        _ => Some((lhs, pos)),
    }
}

/// A term at `pos`: a number, a call, or a variable.
pub open spec fn parse_term(ts: Seq<TokenView>, pos: int) -> Option<(NodeView, int)>
    decreases ts.len() - pos, 2int,
{
    match at(ts, pos) {
        TokenView::Num(_) => parse_literal(ts, pos),
        TokenView::Ident(_) => if at(ts, pos + 1) is LeftParen {
            parse_call(ts, pos)
        } else {
            parse_name(ts, pos)
        },
        _ => None,
    }
}

/// A call at `pos`: a name, and its arguments in parentheses.
pub open spec fn parse_call(ts: Seq<TokenView>, pos: int) -> Option<(NodeView, int)>
    decreases ts.len() - pos, 1int,
{
    match at(ts, pos) {
        TokenView::Ident(name) => if at(ts, pos + 1) is LeftParen {
            match parse_call_args(ts, pos + 2) {
                Some((args, end)) => if at(ts, end) is RightParen {
                    Some((NodeView::Call(name, args), end + 1))
                } else {
                    None
                },
                None => None,
            }
        } else {
            None
        },
        _ => None,
    }
}

/// The arguments of a call, up to the closing parenthesis: expressions
/// with a comma behind each but, at will, the last.
pub open spec fn parse_call_args(ts: Seq<TokenView>, pos: int) -> Option<(Seq<NodeView>, int)>
    decreases ts.len() - pos, 6int,
{
    if at(ts, pos) is RightParen {
        Some((Seq::empty(), pos))
    } else {
        match parse_expr(ts, pos) {
            Some((arg, end)) => if at(ts, end) is Comma {
                if advanced(ts, pos, end) {
                    match parse_call_args(ts, end + 1) {
                        Some((rest, last)) => Some((seq![arg] + rest, last)),
                        None => None,
                    }
                } else {
                    None
                }
            } else {
                Some((seq![arg], end))
            },
            None => None,
        }
    }
}

/// A statement at `pos`: a return or an expression, and a semicolon.
pub open spec fn parse_statement(ts: Seq<TokenView>, pos: int) -> Option<(NodeView, int)> {
    if at(ts, pos) is Return {
        match parse_expr(ts, pos + 1) {
            Some((e, end)) => if at(ts, end) is SemiColon {
                Some((NodeView::Return(Box::new(e)), end + 1))
            } else {
                None
            },
            None => None,
        }
    } else {
        match parse_expr(ts, pos) {
            Some((e, end)) => if at(ts, end) is SemiColon {
                Some((e, end + 1))
            } else {
                None
            },
            None => None,
        }
    }
}

/// The statements from `pos` up to the token `close`.
pub open spec fn parse_statement_list(ts: Seq<TokenView>, pos: int, close: TokenView) -> Option<
    (Seq<NodeView>, int),
>
    decreases ts.len() - pos,
{
    if at(ts, pos) == close {
        Some((Seq::empty(), pos))
    } else {
        match parse_statement(ts, pos) {
            Some((stmt, end)) => if advanced(ts, pos, end) {
                match parse_statement_list(ts, end, close) {
                    Some((rest, last)) => Some((seq![stmt] + rest, last)),
                    None => None,
                }
            } else {
                None
            },
            None => None,
        }
    }
}

/// The block of the statements from `pos` up to the token `close`.
pub open spec fn parse_statements(ts: Seq<TokenView>, pos: int, close: TokenView) -> Option<
    (NodeView, int),
> {
    match parse_statement_list(ts, pos, close) {
        Some((list, end)) => Some((NodeView::Statements(list), end)),
        None => None,
    }
}

/// The parameters of a function definition, up to the closing
/// parenthesis: a type and a name each, with or without a comma behind.
pub open spec fn parse_params(ts: Seq<TokenView>, pos: int) -> Option<
    (Seq<(Ctype, NodeView)>, int),
>
    decreases ts.len() - pos,
{
    if at(ts, pos) is RightParen {
        Some((Seq::empty(), pos))
    } else {
        match parse_type(ts, pos) {
            Some((typ, _)) => match parse_name(ts, pos + 1) {
                Some((name, _)) => {
                    let next = if at(ts, pos + 2) is Comma {
                        pos + 3
                    } else {
                        pos + 2
                    };
                    match parse_params(ts, next) {
                        Some((rest, last)) => Some((seq![(typ, name)] + rest, last)),
                        None => None,
                    }
                },
                None => None,
            },
            None => None,
        }
    }
}

/// A function definition at `pos`: return type, name, parameters in
/// parentheses, and the body in braces.
pub open spec fn parse_function(ts: Seq<TokenView>, pos: int) -> Option<(NodeView, int)> {
    match parse_type(ts, pos) {
        Some((typ, _)) => match parse_name(ts, pos + 1) {
            Some((name, _)) => if at(ts, pos + 2) is LeftParen {
                match parse_params(ts, pos + 3) {
                    Some((params, p)) => if at(ts, p) is RightParen && at(ts, p + 1)
                        is LeftCurlyBrace {
                        match parse_statements(ts, p + 2, TokenView::RightCurlyBrace) {
                            Some((body, q)) => if at(ts, q) is RightCurlyBrace {
                                Some(
                                    (
                                        NodeView::DefFun(
                                            typ,
                                            Box::new(name),
                                            params,
                                            Box::new(body),
                                        ),
                                        q + 1,
                                    ),
                                )
                            } else {
                                None
                            },
                            None => None,
                        }
                    } else {
                        None
                    },
                    None => None,
                }
            } else {
                None
            },
            None => None,
        },
        None => None,
    }
}

/// The function definitions from `pos` up to the end mark.
pub open spec fn parse_program(ts: Seq<TokenView>, pos: int) -> Option<(Seq<NodeView>, int)>
    decreases ts.len() - pos,
{
    if at(ts, pos) is EOF {
        Some((Seq::empty(), pos))
    } else {
        match parse_function(ts, pos) {
            Some((def, end)) => if advanced(ts, pos, end) {
                match parse_program(ts, end) {
                    Some((rest, last)) => Some((seq![def] + rest, last)),
                    None => None,
                }
            } else {
                None
            },
            None => None,
        }
    }
}

/// The rest of a sum ends at or behind its start, and within the tokens
/// if it starts there.
pub proof fn lemma_sum_rest_bounds(ts: Seq<TokenView>, lhs: NodeView, pos: int)
    requires
        parse_sum_rest(ts, lhs, pos) is Some,
    ensures
        pos <= parse_sum_rest(ts, lhs, pos)->Some_0.1,
        pos <= ts.len() ==> parse_sum_rest(ts, lhs, pos)->Some_0.1 <= ts.len(),
    decreases ts.len() - pos,
{
    match at(ts, pos) {
        TokenView::Plus => {
            let (rhs, end) = parse_product(ts, pos + 1)->Some_0;
            lemma_sum_rest_bounds(
                ts,
                NodeView::BinaryOp(BinOp::Add, Box::new(lhs), Box::new(rhs)),
                end,
            );
        },
        TokenView::Minus => {
            let (rhs, end) = parse_product(ts, pos + 1)->Some_0;
            lemma_sum_rest_bounds(
                ts,
                NodeView::BinaryOp(BinOp::Sub, Box::new(lhs), Box::new(rhs)),
                end,
            );
        },
        _ => {},
    }
}

/// The rest of a product ends at or behind its start, and within the
/// tokens if it starts there.
pub proof fn lemma_product_rest_bounds(ts: Seq<TokenView>, lhs: NodeView, pos: int)
    requires
        parse_product_rest(ts, lhs, pos) is Some,
    ensures
        pos <= parse_product_rest(ts, lhs, pos)->Some_0.1,
        pos <= ts.len() ==> parse_product_rest(ts, lhs, pos)->Some_0.1 <= ts.len(),
    decreases ts.len() - pos,
{
    match at(ts, pos) {
        TokenView::Asterisk => {
            let (rhs, end) = parse_term(ts, pos + 1)->Some_0;
            lemma_product_rest_bounds(
                ts,
                NodeView::BinaryOp(BinOp::Mul, Box::new(lhs), Box::new(rhs)),
                end,
            );
        },
        TokenView::Slash => {
            let (rhs, end) = parse_term(ts, pos + 1)->Some_0;
            lemma_product_rest_bounds(
                ts,
                NodeView::BinaryOp(BinOp::Div, Box::new(lhs), Box::new(rhs)),
                end,
            );
        },
        _ => {},
    }
}

/// A product is not empty and ends within the tokens.
pub proof fn lemma_product_advances(ts: Seq<TokenView>, pos: int)
    requires
        parse_product(ts, pos) is Some,
    ensures
        advanced(ts, pos, parse_product(ts, pos)->Some_0.1),
{
    let (lhs, end) = parse_term(ts, pos)->Some_0;
    lemma_product_rest_bounds(ts, lhs, end);
}

/// An expression is not empty and ends within the tokens.
pub proof fn lemma_expr_advances(ts: Seq<TokenView>, pos: int)
    requires
        parse_expr(ts, pos) is Some,
    ensures
        advanced(ts, pos, parse_expr(ts, pos)->Some_0.1),
{
    let (lhs, end) = parse_product(ts, pos)->Some_0;
    lemma_sum_rest_bounds(ts, lhs, end);
}

/// The arguments of a call end at or behind their start.
pub proof fn lemma_call_args_bounds(ts: Seq<TokenView>, pos: int)
    requires
        parse_call_args(ts, pos) is Some,
    ensures
        pos <= parse_call_args(ts, pos)->Some_0.1,
    decreases ts.len() - pos,
{
    if !(at(ts, pos) is RightParen) {
        lemma_expr_advances(ts, pos);
        let (arg, end) = parse_expr(ts, pos)->Some_0;
        if at(ts, end) is Comma {
            lemma_call_args_bounds(ts, end + 1);
        }
    }
}

/// A term is not empty and ends within the tokens.
pub proof fn lemma_term_advances(ts: Seq<TokenView>, pos: int)
    requires
        parse_term(ts, pos) is Some,
    ensures
        advanced(ts, pos, parse_term(ts, pos)->Some_0.1),
{
    if at(ts, pos) is Ident && at(ts, pos + 1) is LeftParen {
        lemma_call_args_bounds(ts, pos + 2);
    }
}

/// A statement is not empty and ends within the tokens.
pub proof fn lemma_statement_advances(ts: Seq<TokenView>, pos: int)
    requires
        parse_statement(ts, pos) is Some,
    ensures
        advanced(ts, pos, parse_statement(ts, pos)->Some_0.1),
{
    if at(ts, pos) is Return {
        lemma_expr_advances(ts, pos + 1);
    } else {
        lemma_expr_advances(ts, pos);
    }
}

/// A list of statements ends at or behind its start.
pub proof fn lemma_statement_list_bounds(ts: Seq<TokenView>, pos: int, close: TokenView)
    requires
        parse_statement_list(ts, pos, close) is Some,
    ensures
        pos <= parse_statement_list(ts, pos, close)->Some_0.1,
    decreases ts.len() - pos,
{
    if at(ts, pos) != close {
        let (stmt, end) = parse_statement(ts, pos)->Some_0;
        lemma_statement_list_bounds(ts, end, close);
    }
}

/// The parameters of a function definition end at or behind their start.
pub proof fn lemma_params_bounds(ts: Seq<TokenView>, pos: int)
    requires
        parse_params(ts, pos) is Some,
    ensures
        pos <= parse_params(ts, pos)->Some_0.1,
    decreases ts.len() - pos,
{
    if !(at(ts, pos) is RightParen) {
        let next = if at(ts, pos + 2) is Comma {
            pos + 3
        } else {
            pos + 2
        };
        lemma_params_bounds(ts, next);
    }
}

/// A function definition is not empty and ends within the tokens.
pub proof fn lemma_function_advances(ts: Seq<TokenView>, pos: int)
    requires
        parse_function(ts, pos) is Some,
    ensures
        advanced(ts, pos, parse_function(ts, pos)->Some_0.1),
{
    lemma_params_bounds(ts, pos + 3);
    let p = parse_params(ts, pos + 3)->Some_0.1;
    lemma_statement_list_bounds(ts, p + 2, TokenView::RightCurlyBrace);
}

/// The parser: a position in a list of tokens.
pub struct Parser {
    pos: usize,
}

/// `r` is what the parse `expected` says, and `end` where it ended.
spec fn yields(r: Result<Node, ()>, end: int, expected: Option<(NodeView, int)>) -> bool {
    match r {
        Ok(node) => expected == Some((node@, end)),
        Err(_) => expected is None,
    }
}

/// `r` is the list that the parse `expected` says, and `end` where it
/// ended.
spec fn yields_list(
    r: Result<Vec<Node>, ()>,
    end: int,
    expected: Option<(Seq<NodeView>, int)>,
) -> bool {
    match r {
        Ok(nodes) => expected == Some((trees(nodes@), end)),
        Err(_) => expected is None,
    }
}

/// The result `r` for what is left of a list, behind what is done.
spec fn list_behind<T>(done: Seq<T>, r: Option<(Seq<T>, int)>) -> Option<(Seq<T>, int)> {
    match r {
        Some((rest, end)) => Some((done + rest, end)),
        None => None,
    }
}

impl Parser {
    /// The index of the token that the parser is at.
    pub closed spec fn position(&self) -> int {
        self.pos as int
    }

    /// A parser at the first token.
    pub fn new() -> (parser: Self)
        ensures
            parser.position() == 0,
    {
        Parser { pos: 0 }
    }

    /// Parses the function definitions from the position up to the end
    /// mark. Fails at the first token that fits none.
    pub fn run(&mut self, tokens: Vec<Token>) -> (r: Result<Vec<Node>, ()>)
        ensures
            match r {
                Ok(nodes) => parse_program(tokens.deep_view(), old(self).position()) == Some(
                    (trees(nodes@), final(self).position()),
                ),
                Err(_) => parse_program(tokens.deep_view(), old(self).position()) is None,
            },
    {
        let ghost ts = tokens.deep_view();
        let ghost start = self.pos as int;
        let mut v: Vec<Node> = Vec::new();
        proof {
            assert(trees(v@) =~= Seq::<NodeView>::empty());
            assert(list_behind(trees(v@), parse_program(ts, start)) =~~= parse_program(
                ts,
                start,
            ));
        }
        while !self.is_eof(&tokens)
            invariant
                ts == tokens.deep_view(),
                start == old(self).pos,
                parse_program(ts, start) == list_behind(
                    trees(v@),
                    parse_program(ts, self.pos as int),
                ),
            decreases tokens.len() - self.pos,
        {
            let ghost from = self.pos as int;
            let ghost done = trees(v@);
            let gd = match self.global_def(&tokens) {
                Ok(node) => node,
                Err(e) => {
                    return Err(e);
                },
            };
            v.push(gd);
            proof {
                lemma_function_advances(ts, from);
                assert(trees(v@) =~= done.push(gd@));
                match parse_program(ts, self.pos as int) {
                    Some((rest, last)) => {
                        assert(done + (seq![gd@] + rest) =~= done.push(gd@) + rest);
                    },
                    None => {},
                }
            }
        }
        proof {
            assert(trees(v@) + Seq::<NodeView>::empty() =~= trees(v@));
        }
        Ok(v)
    }

    /// Parses one function definition.
    fn global_def(&mut self, tokens: &Vec<Token>) -> (r: Result<Node, ()>)
        ensures
            yields(
                r,
                final(self).pos as int,
                parse_function(tokens.deep_view(), old(self).pos as int),
            ),
    {
        let ghost ts = tokens.deep_view();
        let typ = match self.ctype(tokens) {
            Ok(typ) => typ,
            Err(e) => {
                return Err(e);
            },
        };
        let id = match self.ident(tokens) {
            Ok(id) => id,
            Err(e) => {
                return Err(e);
            },
        };
        match self.expect(tokens, Token::LeftParen) {
            Ok(()) => {},
            Err(e) => {
                return Err(e);
            },
        }
        let local_args = match self.args_def(tokens) {
            Ok(args) => args,
            Err(e) => {
                return Err(e);
            },
        };
        match self.expect(tokens, Token::RightParen) {
            Ok(()) => {},
            Err(e) => {
                return Err(e);
            },
        }
        match self.expect(tokens, Token::LeftCurlyBrace) {
            Ok(()) => {},
            Err(e) => {
                return Err(e);
            },
        }
        let stmts = match self.statements(tokens, Token::RightCurlyBrace) {
            Ok(stmts) => stmts,
            Err(e) => {
                return Err(e);
            },
        };
        match self.expect(tokens, Token::RightCurlyBrace) {
            Ok(()) => {},
            Err(e) => {
                return Err(e);
            },
        }
        let ghost params = param_trees(local_args@);
        let node = Node::new(NodeBase::DefFun(typ, Box::new(id), local_args, Box::new(stmts)));
        assert(node@->DefFun_2 =~= params);
        Ok(node)
    }

    /// Parses the parameters of a function definition.
    fn args_def(&mut self, tokens: &Vec<Token>) -> (r: Result<Vec<(Ctype, Node)>, ()>)
        ensures
            match r {
                Ok(params) => parse_params(tokens.deep_view(), old(self).pos as int) == Some(
                    (param_trees(params@), final(self).pos as int),
                ),
                Err(_) => parse_params(tokens.deep_view(), old(self).pos as int) is None,
            },
    {
        let ghost ts = tokens.deep_view();
        let ghost start = self.pos as int;
        let mut v: Vec<(Ctype, Node)> = Vec::new();
        proof {
            assert(param_trees(v@) =~= Seq::<(Ctype, NodeView)>::empty());
            assert(list_behind(param_trees(v@), parse_params(ts, start)) =~~= parse_params(
                ts,
                start,
            ));
        }
        while !self.consume(tokens, &Token::RightParen, 0)
            invariant
                ts == tokens.deep_view(),
                start == old(self).pos,
                parse_params(ts, start) == list_behind(
                    param_trees(v@),
                    parse_params(ts, self.pos as int),
                ),
            decreases tokens.len() - self.pos,
        {
            let ghost from = self.pos as int;
            let ghost done = param_trees(v@);
            let argtyp = match self.ctype(tokens) {
                Ok(typ) => typ,
                Err(e) => {
                    return Err(e);
                },
            };
            let argid = match self.ident(tokens) {
                Ok(id) => id,
                Err(e) => {
                    return Err(e);
                },
            };
            let ghost param = (argtyp, argid@);
            v.push((argtyp, argid));
            if self.consume(tokens, &Token::Comma, 0) {
                match self.expect(tokens, Token::Comma) {
                    Ok(()) => {},
                    Err(e) => {
                        return Err(e);
                    },
                }
            }
            proof {
                assert(param_trees(v@) =~= done.push(param));
                match parse_params(ts, self.pos as int) {
                    Some((rest, last)) => {
                        assert(done + (seq![param] + rest) =~= done.push(param) + rest);
                    },
                    None => {},
                }
            }
        }
        proof {
            assert(param_trees(v@) + Seq::<(Ctype, NodeView)>::empty() =~= param_trees(v@));
        }
        Ok(v)
    }

    /// Parses the statements up to the token `end`.
    fn statements(&mut self, tokens: &Vec<Token>, end: Token) -> (r: Result<Node, ()>)
        ensures
            yields(
                r,
                final(self).pos as int,
                parse_statements(tokens.deep_view(), old(self).pos as int, end@),
            ),
    {
        let ghost ts = tokens.deep_view();
        let ghost start = self.pos as int;
        let mut stmts: Vec<Box<Node>> = Vec::new();
        proof {
            assert(boxed_trees(stmts@) =~= Seq::<NodeView>::empty());
            assert(list_behind(boxed_trees(stmts@), parse_statement_list(ts, start, end@))
                =~~= parse_statement_list(ts, start, end@));
        }
        while !self.consume(tokens, &end, 0)
            invariant
                ts == tokens.deep_view(),
                start == old(self).pos,
                parse_statement_list(ts, start, end@) == list_behind(
                    boxed_trees(stmts@),
                    parse_statement_list(ts, self.pos as int, end@),
                ),
            decreases tokens.len() - self.pos,
        {
            let ghost from = self.pos as int;
            let ghost done = boxed_trees(stmts@);
            let stmt = match self.statement(tokens) {
                Ok(stmt) => stmt,
                Err(e) => {
                    return Err(e);
                },
            };
            let ghost tree = stmt@;
            stmts.push(Box::new(stmt));
            proof {
                lemma_statement_advances(ts, from);
                assert(boxed_trees(stmts@) =~= done.push(tree));
                match parse_statement_list(ts, self.pos as int, end@) {
                    Some((rest, last)) => {
                        assert(done + (seq![tree] + rest) =~= done.push(tree) + rest);
                    },
                    None => {},
                }
            }
        }
        let ghost list = boxed_trees(stmts@);
        let node = Node::new(NodeBase::Statements(stmts));
        proof {
            assert(list + Seq::<NodeView>::empty() =~= list);
            assert(node@->Statements_0 =~= list);
        }
        Ok(node)
    }

    /// Parses one statement.
    fn statement(&mut self, tokens: &Vec<Token>) -> (r: Result<Node, ()>)
        ensures
            yields(
                r,
                final(self).pos as int,
                parse_statement(tokens.deep_view(), old(self).pos as int),
            ),
    {
        let stmt = if self.consume(tokens, &Token::Return, 0) {
            assert(tokens.deep_view().len() == tokens.len());
            self.step();
            let e = match self.expr(tokens) {
                Ok(e) => e,
                Err(e) => {
                    return Err(e);
                },
            };
            Node::new(NodeBase::Return(Box::new(e)))
        } else {
            match self.expr(tokens) {
                Ok(e) => e,
                Err(e) => {
                    return Err(e);
                },
            }
        };
        match self.expect(tokens, Token::SemiColon) {
            Ok(()) => Ok(stmt),
            Err(e) => Err(e),
        }
    }

    /// Parses one expression.
    fn expr(&mut self, tokens: &Vec<Token>) -> (r: Result<Node, ()>)
        ensures
            yields(
                r,
                final(self).pos as int,
                parse_expr(tokens.deep_view(), old(self).pos as int),
            ),
        decreases tokens.len() - old(self).pos, 5int,
    {
        self.expr_op1(tokens)
    }

    /// Parses a sum.
    fn expr_op1(&mut self, tokens: &Vec<Token>) -> (r: Result<Node, ()>)
        ensures
            yields(
                r,
                final(self).pos as int,
                parse_sum(tokens.deep_view(), old(self).pos as int),
            ),
        decreases tokens.len() - old(self).pos, 4int,
    {
        let ghost ts = tokens.deep_view();
        let ghost start = self.pos as int;
        let mut lhs = match self.expr_op2(tokens) {
            Ok(lhs) => lhs,
            Err(e) => {
                return Err(e);
            },
        };
        proof {
            lemma_product_advances(ts, start);
        }
        let mut going = true;
        while going
            invariant
                ts == tokens.deep_view(),
                start == old(self).pos,
                start < self.pos <= tokens.len(),
                going ==> parse_sum(ts, start) == parse_sum_rest(ts, lhs@, self.pos as int),
                !going ==> parse_sum(ts, start) == Some((lhs@, self.pos as int)),
            decreases tokens.len() - self.pos + (if going { 1int } else { 0int }),
        {
            let ghost from = self.pos as int;
            if self.consume(tokens, &Token::Plus, 0) {
                self.step();
                let rhs = match self.expr_op2(tokens) {
                    Ok(rhs) => rhs,
                    Err(e) => {
                        return Err(e);
                    },
                };
                proof {
                    lemma_product_advances(ts, from + 1);
                }
                lhs = Node::new(NodeBase::BinaryOp(BinOp::Add, Box::new(lhs), Box::new(rhs)));
            } else if self.consume(tokens, &Token::Minus, 0) {
                self.step();
                let rhs = match self.expr_op2(tokens) {
                    Ok(rhs) => rhs,
                    Err(e) => {
                        return Err(e);
                    },
                };
                proof {
                    lemma_product_advances(ts, from + 1);
                }
                lhs = Node::new(NodeBase::BinaryOp(BinOp::Sub, Box::new(lhs), Box::new(rhs)));
            } else {
                going = false;
            }
        }
        Ok(lhs)
    }

    /// Parses a product.
    fn expr_op2(&mut self, tokens: &Vec<Token>) -> (r: Result<Node, ()>)
        ensures
            yields(
                r,
                final(self).pos as int,
                parse_product(tokens.deep_view(), old(self).pos as int),
            ),
        decreases tokens.len() - old(self).pos, 3int,
    {
        let ghost ts = tokens.deep_view();
        let ghost start = self.pos as int;
        let mut lhs = match self.term(tokens) {
            Ok(lhs) => lhs,
            Err(e) => {
                return Err(e);
            },
        };
        proof {
            lemma_term_advances(ts, start);
        }
        let mut going = true;
        while going
            invariant
                ts == tokens.deep_view(),
                start == old(self).pos,
                start < self.pos <= tokens.len(),
                going ==> parse_product(ts, start) == parse_product_rest(
                    ts,
                    lhs@,
                    self.pos as int,
                ),
                !going ==> parse_product(ts, start) == Some((lhs@, self.pos as int)),
            decreases tokens.len() - self.pos + (if going { 1int } else { 0int }),
        {
            let ghost from = self.pos as int;
            if self.consume(tokens, &Token::Asterisk, 0) {
                self.step();
                let rhs = match self.term(tokens) {
                    Ok(rhs) => rhs,
                    Err(e) => {
                        return Err(e);
                    },
                };
                proof {
                    lemma_term_advances(ts, from + 1);
                }
                lhs = Node::new(NodeBase::BinaryOp(BinOp::Mul, Box::new(lhs), Box::new(rhs)));
            } else if self.consume(tokens, &Token::Slash, 0) {
                self.step();
                let rhs = match self.term(tokens) {
                    Ok(rhs) => rhs,
                    Err(e) => {
                        return Err(e);
                    },
                };
                proof {
                    lemma_term_advances(ts, from + 1);
                }
                lhs = Node::new(NodeBase::BinaryOp(BinOp::Div, Box::new(lhs), Box::new(rhs)));
            } else {
                going = false;
            }
        }
        Ok(lhs)
    }

    /// Parses a term: a number, a call, or a variable.
    fn term(&mut self, tokens: &Vec<Token>) -> (r: Result<Node, ()>)
        ensures
            yields(
                r,
                final(self).pos as int,
                parse_term(tokens.deep_view(), old(self).pos as int),
            ),
        decreases tokens.len() - old(self).pos, 2int,
    {
        match self.token_at(tokens) {
            Some(Token::Num(_)) => self.number(tokens),
            Some(Token::Ident(_)) => {
                if self.consume(tokens, &Token::LeftParen, 1) {
                    return self.funccall(tokens);
                }
                self.ident(tokens)
            },
            _ => Err(()),
        }
    }

    /// Parses a number literal.
    fn number(&mut self, tokens: &Vec<Token>) -> (r: Result<Node, ()>)
        ensures
            yields(
                r,
                final(self).pos as int,
                parse_literal(tokens.deep_view(), old(self).pos as int),
            ),
    {
        match self.token_at(tokens) {
            Some(Token::Num(n)) => {
                self.step();
                Ok(Node::new(NodeBase::Number(*n)))
            },
            _ => Err(()),
        }
    }

    /// Parses an identifier.
    fn ident(&mut self, tokens: &Vec<Token>) -> (r: Result<Node, ()>)
        ensures
            yields(
                r,
                final(self).pos as int,
                parse_name(tokens.deep_view(), old(self).pos as int),
            ),
    {
        match self.token_at(tokens) {
            Some(Token::Ident(s)) => {
                self.step();
                Ok(Node::new(NodeBase::Ident(s.clone())))
            },
            _ => Err(()),
        }
    }

    /// Parses a call: a name, and its arguments in parentheses.
    fn funccall(&mut self, tokens: &Vec<Token>) -> (r: Result<Node, ()>)
        ensures
            yields(
                r,
                final(self).pos as int,
                parse_call(tokens.deep_view(), old(self).pos as int),
            ),
        decreases tokens.len() - old(self).pos, 1int,
    {
        match self.token_at(tokens) {
            Some(Token::Ident(s)) => {
                self.step();
                match self.expect(tokens, Token::LeftParen) {
                    Ok(()) => {},
                    Err(e) => {
                        return Err(e);
                    },
                }
                let call_arg = match self.call_arg(tokens) {
                    Ok(args) => args,
                    Err(e) => {
                        return Err(e);
                    },
                };
                match self.expect(tokens, Token::RightParen) {
                    Ok(()) => {},
                    Err(e) => {
                        return Err(e);
                    },
                }
                let ghost args = trees(call_arg@);
                let node = Node::new(NodeBase::Call(s.clone(), call_arg));
                assert(node@->Call_1 =~= args);
                Ok(node)
            },
            _ => Err(()),
        }
    }

    /// Parses the arguments of a call, up to the closing parenthesis.
    fn call_arg(&mut self, tokens: &Vec<Token>) -> (r: Result<Vec<Node>, ()>)
        ensures
            yields_list(
                r,
                final(self).pos as int,
                parse_call_args(tokens.deep_view(), old(self).pos as int),
            ),
        decreases tokens.len() - old(self).pos, 6int,
    {
        let ghost ts = tokens.deep_view();
        let ghost start = self.pos as int;
        let mut v: Vec<Node> = Vec::new();
        let mut going = true;
        proof {
            assert(trees(v@) =~= Seq::<NodeView>::empty());
            assert(list_behind(trees(v@), parse_call_args(ts, start)) =~~= parse_call_args(
                ts,
                start,
            ));
        }
        while going && !self.consume(tokens, &Token::RightParen, 0)
            invariant
                ts == tokens.deep_view(),
                start == old(self).pos,
                start <= self.pos,
                going ==> parse_call_args(ts, start) == list_behind(
                    trees(v@),
                    parse_call_args(ts, self.pos as int),
                ),
                !going ==> parse_call_args(ts, start) == Some((trees(v@), self.pos as int)),
            decreases tokens.len() - self.pos + (if going { 1int } else { 0int }),
        {
            let ghost from = self.pos as int;
            let ghost done = trees(v@);
            if self.pos >= tokens.len() {
                proof {
                    assert(ts.len() == tokens@.len());
                    assert(parse_term(ts, from) is None);
                    assert(parse_product(ts, from) is None);
                    assert(parse_sum(ts, from) is None);
                    assert(parse_expr(ts, from) is None);
                }
                return Err(());
            }
            let exp = match self.expr(tokens) {
                Ok(exp) => exp,
                Err(e) => {
                    return Err(e);
                },
            };
            let ghost tree = exp@;
            v.push(exp);
            proof {
                lemma_expr_advances(ts, from);
                assert(trees(v@) =~= done.push(tree));
                assert(done + seq![tree] =~= done.push(tree));
            }
            if self.consume(tokens, &Token::Comma, 0) {
                match self.expect(tokens, Token::Comma) {
                    Ok(()) => {},
                    Err(e) => {
                        return Err(e);
                    },
                }
                proof {
                    match parse_call_args(ts, self.pos as int) {
                        Some((rest, last)) => {
                            assert(done + (seq![tree] + rest) =~= done.push(tree) + rest);
                        },
                        None => {},
                    }
                }
            } else {
                going = false;
            }
        }
        proof {
            assert(trees(v@) + Seq::<NodeView>::empty() =~= trees(v@));
        }
        Ok(v)
    }

    /// Parses a type keyword.
    fn ctype(&mut self, tokens: &Vec<Token>) -> (r: Result<Ctype, ()>)
        ensures
            match r {
                Ok(typ) => parse_type(tokens.deep_view(), old(self).pos as int) == Some(
                    (typ, final(self).pos as int),
                ),
                Err(_) => parse_type(tokens.deep_view(), old(self).pos as int) is None,
            },
    {
        match self.token_at(tokens) {
            Some(Token::Ctype(s)) => {
                self.step();
                Node::ctype(s.as_str())
            },
            _ => Err(()),
        }
    }

    /// The token at the position, if there is one.
    fn token_at<'a>(&self, tokens: &'a Vec<Token>) -> (r: Option<&'a Token>)
        ensures
            match r {
                Some(token) => self.pos < tokens.len() && *token == tokens@[self.pos as int]
                    && token@ == at(tokens.deep_view(), self.pos as int),
                None => self.pos >= tokens.len(),
            },
    {
        if self.pos < tokens.len() {
            Some(&tokens[self.pos])
        } else {
            None
        }
    }

    /// Moves to the next token.
    fn step(&mut self)
        requires
            old(self).pos < usize::MAX,
        ensures
            final(self).pos == old(self).pos + 1,
    {
        self.pos += 1;
    }

    /// Whether the token `n` places behind the position is `token`.
    fn consume(&self, tokens: &Vec<Token>, token: &Token, n: usize) -> (b: bool)
        ensures
            b == (at(tokens.deep_view(), self.pos + n) == token@),
    {
        assert(tokens.deep_view().len() == tokens.len());
        match self.pos.checked_add(n) {
            Some(i) => {
                if i < tokens.len() {
                    assert(tokens.deep_view()[i as int] == tokens@[i as int]@);
                    tokens[i].same(token)
                } else {
                    Token::EOF.same(token)
                }
            },
            None => Token::EOF.same(token),
        }
    }

    /// Moves over the token at the position if it is `token`; fails and
    /// stays if it is not.
    fn expect(&mut self, tokens: &Vec<Token>, token: Token) -> (r: Result<(), ()>)
        requires
            !(token@ is EOF),
        ensures
            match r {
                Ok(()) => at(tokens.deep_view(), old(self).pos as int) == token@ && final(self).pos == old(self).pos + 1,
                Err(_) => at(tokens.deep_view(), old(self).pos as int) != token@ && final(self).pos == old(self).pos,
            },
    {
        if !self.consume(tokens, &token, 0) {
            return Err(());
        }
        assert(tokens.deep_view().len() == tokens.len());
        self.step();
        Ok(())
    }

    /// Whether the parser is at the end mark.
    fn is_eof(&self, tokens: &Vec<Token>) -> (b: bool)
        ensures
            b == (at(tokens.deep_view(), self.pos as int) is EOF),
    {
        self.consume(tokens, &Token::EOF, 0)
    }
}

} // verus!
