//! Keyword substitution over lines of text, with the keywords held in a
//! finite-state transducer.

pub mod builder;
pub mod cli;
pub mod codec;
pub mod driver;
pub mod fstsed;
pub mod jsonquotes;
pub mod matching;
pub mod order;
pub mod template;
pub mod transducer;
