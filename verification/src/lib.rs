//! Lexical-analysis front end for a small interpreter: turns raw source text
//! into a flat, ordered sequence of classified tokens, recovering from
//! lexical errors by accumulating diagnostics instead of aborting.

pub mod lexspec;
pub mod scanner;
pub mod token;
