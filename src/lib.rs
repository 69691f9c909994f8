//! Structural comparison of disassembled binaries: a line classifier for
//! objdump-style output, a three-level model of sections, blocks and
//! instructions, an order-preserving sequence diff and an order-insensitive
//! set alignment.

pub mod matching;
pub mod text;
pub mod grammar;
pub mod mangle;
pub mod line;
pub mod asm_file;
pub mod diff;
pub mod align;
pub mod compare;
pub mod config;

pub use align::align;
pub use asm_file::{AsmFile, Stats};
pub use compare::{Comparison, line_diff, block_diff, section_diff};
pub use config::{Config, DisplayFilter, Row, row_kind};
pub use diff::{diff, DiffTable};
pub use line::{AsmLine, Instruction, Label, Line, Offset, SectionHeader};
pub use mangle::{demangle, demangle_no_hash};
pub use matching::MatchingPair;
