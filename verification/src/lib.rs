//! A striping sender: one logical write endpoint over a pool of independent
//! output streams.
//!
//! The crate holds the bookkeeping of such a sender and states it as
//! contracts: how a buffer is cut into segments ([`send_buf`]), which stream
//! gets which segment in a round, and how the outcomes of a round change the
//! pool, the buffer and the cursor ([`sender`]). Performing the writes is left
//! to the caller, who runs them in whatever way suits and hands the outcomes
//! back.
pub mod message;
pub mod octets;
pub mod send_buf;
pub mod tiling;
pub mod sender;
