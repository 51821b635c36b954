//! An on-ledger key-value store: tables of records, each record held in its
//! own cell whose address is derived from seeds and a caller-supplied bump.
//!
//! The library decides every operation from plain values (the instruction,
//! a snapshot of the cells handed in, the program's own identity and the
//! minimum balance the host asks for) and answers with the host calls that
//! carry it out. `ledger` gives those calls a model, and an in-memory ledger
//! that runs them; `effects` states what each plan does to the cells.

pub mod address;
pub mod codec;
pub mod error;
pub mod accounts;
pub mod instructions;
pub mod ledger;
pub mod processor;
pub mod effects;
pub mod storage;
