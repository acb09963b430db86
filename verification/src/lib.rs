//! A small C compiler: lexer, parser, and a three-stage x86-64 backend
//! (IR generation, register allocation, assembly emission).

pub mod error;
pub mod gen_ir;
pub mod gen_x86;
pub mod lexer;
pub mod node;
pub mod parser;
pub mod regalloc;
pub mod text;
