pub mod types;
pub mod span;
pub mod declare;
pub mod text;
pub mod lex;
pub mod ops;
pub mod syntax;
pub mod ir;
pub mod parse;
pub mod mangle;
pub mod semantic;
pub mod codegen_c;
pub mod codegen_llvm;
pub mod compile;
