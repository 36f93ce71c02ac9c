pub mod interpreter;
pub mod numerics;
pub mod parser;
pub mod scanner;
pub mod sexpr;
