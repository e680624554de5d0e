//! Per-piece download tracking for a peer-to-peer transfer client: which
//! blocks of a piece to request next, a bounded window of outstanding block
//! requests, a ledger of completed blocks, and digest validation of the
//! reassembled piece.
pub mod block;
pub mod schedule;
pub mod tracker;
pub mod validate;
