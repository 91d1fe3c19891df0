[package]
name = "catten_services"
version = "0.1.0"
edition = "2021"
publish = false

[dependencies]
smoltcp = { version = "=0.13.1", default-features = false, features = ["alloc", "medium-ethernet", "proto-ipv4", "socket-tcp", "socket-udp", "socket-dhcpv4"] }
spin = "=0.12.3"
zeroize = { version = "=1.9.1", features = ["alloc"] }
