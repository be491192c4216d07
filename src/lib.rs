//! Host-side driver core for a network-on-chip transport carried over UDP.
//!
//! The library frames NoC operations into 18-byte wire packets, coalesces
//! them into datagrams, scans incoming datagrams for read responses and
//! unsolicited traffic, and decides the outcome of the loopback self-test.
//! It performs no I/O itself: the caller hands it received datagrams and
//! takes the datagrams that are ready to be sent.
pub mod module;
pub mod packet;
pub mod comm;
pub mod writes;
pub mod reads;
pub mod receive;
pub mod selftest;
pub mod laws;

pub use comm::Communicator;
pub use module::FPGAModule;

