//! Network devices and sockets.
pub mod desc;
pub mod regs;
pub mod dwmac_config;
pub mod dwmac;
pub mod wire;
pub mod checksum;
pub mod sockets;
pub mod listen_table;
pub mod icmp;
