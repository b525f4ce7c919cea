//! What the processor-specific code decides.
pub mod unaligned;
pub mod exception_table;
pub mod trap;
pub mod init;
pub mod riscv;
