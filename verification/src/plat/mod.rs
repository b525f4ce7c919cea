//! The Loongson 2K1000 board.
pub mod mp_common;
pub mod boot;
pub mod cpu_topology;
pub mod time;
pub mod console;
pub mod mp;
pub mod irq;
pub mod mem;
pub mod dtb;
pub mod topology;
