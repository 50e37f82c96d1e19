//! Text that the player reads: numbers, money, names, and pseudolocalised
//! labels, plus the contrast levels used when auditing them.

pub mod binary32;
pub mod contrast;
pub mod format;
pub mod literal;
pub mod wrap;
pub mod number;
pub mod pseudo;

pub use number::{compact, grouped, grouped_with, signed};
pub use format::{capitalize, display_name, format_clock, format_compact_money, format_hmmss, format_mmss, format_money};
pub use contrast::Level;
pub use literal::wrap_literal;
pub use wrap::wrap_words;
pub use pseudo::{letter_count, transform, PseudoMarks, PseudoSwitch};
