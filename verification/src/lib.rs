//! Parsing and canonical printing of plain-text kanban board exports, with
//! diagnostics that point at the exact line and column of every problem.
pub mod text;
pub mod model;
pub mod error;
pub mod syntax;
pub mod parser;
pub mod printer;
pub mod cli;
pub mod roundtrip;
pub mod validity;
pub mod anchoring;
pub mod laws;
pub mod cli_laws;
pub mod render_laws;
pub mod card_laws;
