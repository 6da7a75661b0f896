//! An interpreter core for a tape language whose eight operations are written
//! as the marker `sv` followed by one to eight `o`.
//!
//! A program passes through three stages. The [`scanner`] reads text into a
//! flat sequence of opcodes, the [`structurer`] folds matching loop opcodes
//! into a tree of instructions, and the [`machine`] executes that tree one
//! step at a time against a tape of byte cells. The [`translator`] rewrites
//! the conventional one-symbol-per-operation notation into the marker
//! notation.
//!
//! Every function is verified against a mathematical model of what it
//! computes: [`scanner::scan`] for the scanner, [`syntax::flatten`] for the
//! structurer, [`machine::State::step`] for the machine and
//! [`translator::translation`] for the translator. The module [`walk`]
//! gives the meaning of a program as a plain walk over its tree and proves
//! that the machine computes exactly that.
pub mod machine;
pub mod scanner;
pub mod structurer;
pub mod syntax;
pub mod translator;
pub mod walk;
