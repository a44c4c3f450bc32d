//! An inventory of furniture: stock records, an append-only history of what
//! was done to them, and the text lines both are kept in.

pub mod command;
pub mod error;
pub mod history;
pub mod laws;
pub mod perabot;
pub mod perabots;
pub mod table;
pub mod text;
pub mod timestamp;
