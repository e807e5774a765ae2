//! FlowScript: a small pipeline-oriented scripting language compiled to bytecode.
//!
//! The verified library holds the whole compiler and the machine's steps:
//! the value model, the lexer and parser, name resolution over the symbol
//! table, branch pruning, kind checking against the builtin table, bytecode
//! emission and assembly, the heap with its copying collector, and the
//! virtual machine's instruction step and the turn that runs its frames,
//! the builtins on arguments with no float (but for the few cases
//! `evaluation::exact` leaves to its caller), and executable tests of what
//! the emitter, the assembler and the machine's steps ask for.

pub mod bytes;
pub mod value;
pub mod builtins;
pub mod token;
pub mod error_handler;
pub mod instructions;
pub mod memory;
pub mod constants_pool;
pub mod virmac;
pub mod assembler;
pub mod symbol_table;
pub mod lexer;
pub mod node;
pub mod emitter;
pub mod type_checker;
pub mod resolver;
pub mod parser;
pub mod optimizer;
pub mod collection;
pub mod evaluation;
pub mod runnable;
pub mod frames;
