//! Verified core of a component-based kernel: address spaces, scheduling
//! primitives, network bookkeeping, driver descriptors, the mount tree and the
//! platform tables. Everything here is plain data in, plain data out; locks,
//! device registers and futures live in the crates that call it.
pub mod error;
pub mod cpu;
pub mod mm;
pub mod plat;
pub mod vfs;
pub mod task;
pub mod block;
pub mod net;
