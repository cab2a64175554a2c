//! The arithmetic core of a desktop calculator: an expression parser, a
//! display formatter and the editing rules that build the expression one
//! key press at a time.
//!
//! - [`operations`] parses an expression into its tree, and [`grammar`]
//!   states which trees are expressions and proves that the parser reads
//!   exactly these.
//! - [`editing`] holds what each key makes of the expression typed so far,
//!   and [`display`] how the expression is shown.
//! - [`calculator`] is the state of the two output lines and the step that a
//!   message of a button makes on it; [`button`] describes the buttons.
//! - [`spacing`], [`roundtrip`] and [`insertions`] prove when the expression
//!   can be read back from what is shown, and [`laws`] what holds of digits
//!   and of whole sequences of messages.
//! - [`text`] holds the work on character sequences that the others share.

pub mod button;
pub mod calculator;
pub mod display;
pub mod editing;
pub mod grammar;
pub mod insertions;
pub mod laws;
pub mod operations;
pub mod roundtrip;
pub mod spacing;
pub mod text;
