[package]
name = "litebox"
version = "0.1.0"
edition = "2021"
publish = false

[dependencies]
rangemap = "1"
hashbrown = "0.15"
spin = "0.9"
smoltcp = { version = "0.12", default-features = false, features = ["alloc", "medium-ip", "proto-ipv4", "socket-tcp", "socket-udp"] }
zerocopy = { version = "0.8", features = ["derive"] }
thiserror = "2"
bitflags = "2"
