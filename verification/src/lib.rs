//! Core of a NEXMark-style streaming query engine: event model, window
//! arithmetic, and the stateful operators behind queries Q3 through Q8 and the
//! generic windowed COUNT/RANK operators, with machine-checked contracts.
//!
//! The dataflow substrate (scheduling, exchange channels, capabilities) is an
//! external collaborator: a driver feeds each operator its partitioned input
//! and fires its notifications in timestamp order. Everything the operators
//! decide — which records join, which bid wins, what every window emits — is
//! implemented and verified here.

pub mod event;
pub mod timer;
pub mod windows;
pub mod demux;
pub mod counts;
pub mod q3;
pub mod auction_close;
pub mod q4;
pub mod q5;
pub mod q5_index;
pub mod q6;
pub mod q7;
pub mod q8;
pub mod window_count;
pub mod window_rank;
