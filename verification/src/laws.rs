//! What holds of the library as a whole, proved of the models that the
//! functions' contracts are stated with.
pub mod alphabet;
pub mod content;
pub mod drawing;
pub mod filling;
pub mod flow;
pub mod grids;
pub mod inline_text;
pub mod parsing;
pub mod pieces;
pub mod plain;
pub mod reflow;
pub mod rendering;
pub mod syntax;
pub mod tables;
pub mod tokens;
pub mod wrapping;
