//! A small `grep -E`: a tokenizer of patterns and a backtracking search of
//! their tokens in a line of text, with the search's behaviour stated as spec
//! functions and proved.
//!
//! - `text`: UTF-8 byte measures of character sequences, and conversions.
//! - `helpers`: character classes, the alternatives of a group, the tokenizer.
//! - `semantics`: what the search computes, step by step.
//! - `matches`: the search itself.
//! - `lengths`, `budget`, `laws`: properties of the search.
//! - `repetition`: how the repetition operators relate to one another.
//! - `captures`: what a match step does to the captures of groups.
//! - `termination`: when a starred group's search is sure to finish.
//! - `rendering`: the tokens of a well-formed pattern give the pattern back.
//! - `steps`: what single steps of the search owe: classes, bounds, back
//!   references and alternations.
pub mod budget;
pub mod captures;
pub mod helpers;
pub mod laws;
pub mod lengths;
pub mod matches;
pub mod rendering;
pub mod repetition;
pub mod semantics;
pub mod steps;
pub mod termination;
pub mod text;
