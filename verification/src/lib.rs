pub mod ast;
pub mod lexer;
pub mod text;
pub mod fmt;
pub mod subst;
pub mod functionize;
pub mod value;
pub mod codec;
pub mod program;
pub mod nested;
pub mod fsm;
pub mod chain_eval;
pub mod lower;
pub mod emit;
pub mod kahn;
pub mod toposort;
pub mod collect;
pub mod ffi_sig;
pub mod plugins;
pub mod declare;
pub mod passthrough;
pub mod operators;
pub mod claim_args;
pub mod dispatch;
pub mod extract;
pub mod nested_run;
pub mod tick;
