//! Core of a single-instance launcher: the session broker that arbitrates
//! launch requests, the bounded command history of the shell provider, and
//! the fuzzy ranking of history entries against a query.

pub mod broker;
pub mod history;
pub mod ranker;
pub mod shell;
