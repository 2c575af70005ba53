//! An event-driven verifiable-callback relay: a canonical ABI-style binary
//! codec together with the pure decision logic of the relay dispatch cycle.
pub mod words;
pub mod abi;
pub mod codec;
pub mod laws;
pub mod relay;
pub mod compute;
