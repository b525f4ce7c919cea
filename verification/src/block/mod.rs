//! Block devices.
pub mod buffers;
pub mod mmc;
pub mod ahci;
