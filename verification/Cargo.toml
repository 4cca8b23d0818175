[package]
name = "mdns_manager"
version = "0.1.0"
edition = "2021"
publish = false

[dependencies]
mdns-sd = "*"
uuid = { version = "*", features = ["v4"] }
chrono = "*"
hostname = "*"
if-addrs = "*"
dirs = "*"
