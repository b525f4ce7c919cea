[package]
name = "pulseos"
version = "0.1.0"
edition = "2021"
publish = false

[dependencies]
axerrno = "0.2.2"
axpoll = "0.1.2"
fdt-raw = "0.3.0"
hashbrown = "0.15.5"
memory_addr = "0.4.1"
memory_set = "0.4.1"
page_table_entry = "0.5.7"
page_table_multiarch = "0.5.7"
smoltcp = { version = "0.12.0", default-features = false, features = ["alloc", "medium-ethernet", "medium-ip", "proto-ipv4", "socket-tcp", "socket-udp", "socket-raw", "socket-icmp"] }
spin = "0.10.1"
async-lock = "3"
timer_list = "0.1.0"
simple-ahci = "0.1.1-preview.1"
sdmmc-protocol = "*"
starfive-jh7110-dwmmc = "*"
