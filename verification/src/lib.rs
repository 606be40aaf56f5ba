//! A runner for stories written in a subset of the ink narrative language.

pub mod text;
pub mod ink_lexer;
pub mod ink_parser;
pub mod ink_runner;
pub mod game;
pub mod bot;
