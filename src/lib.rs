// Practice exercises as branching stories: formulas over magnitudes with
// units (magnitude, expression, parse, evaluation, show), the text of the
// passages with interpolated formulas (gate), and the expansion of
// sequences, alternatives and concurrent branches into trees of passages
// (document, passage).

pub mod document;
pub mod error;
pub mod evaluation;
pub mod expression;
pub mod gate;
pub mod macros;
pub mod magnitude;
pub mod parse;
pub mod passage;
pub mod show;
pub mod text;
