pub mod board;
pub mod cli;
pub mod lexicon;
