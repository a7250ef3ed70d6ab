//! An optimizing compiler and interpreter for the eight-instruction tape language.
//!
//! Source text is scanned into tokens, lowered to instructions, linked,
//! optimized by a peephole pass and linked again; the resulting program runs
//! against a circular tape of byte cells.
pub mod program;
pub mod linker;
pub mod optimizer;
pub mod state;
pub mod interpreter;
pub mod brainfuck;
pub mod transparency;

pub use program::{Opcode, Token, brainfuck_tokens, parse};
pub use linker::{CompileError, link_loops};
pub use optimizer::{BlockEffect, optimize};
pub use state::{BrainfuckState, TAPE_LEN, MEMORY_MASK};
pub use interpreter::{Action, cell_index};
pub use brainfuck::{Brainfuck, Execution};
