//! A number-guessing arcade game's accounts, score ledger and rounds, kept
//! over append-only text logs.
pub mod accounts;
pub mod game;
pub mod ledger;
pub mod store;
pub mod text;
