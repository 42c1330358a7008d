[package]
name = "pathweave"
version = "0.3.0"
edition = "2021"
publish = false

[dependencies]
async-trait = "0.1"
blake3 = "1"
bluer = { version = "0.17", features = ["bluetoothd"] }
bp7 = "0.10"
bs58 = "0.5"
btleplug = "0.11"
bytes = "1"
futures = "0.3"
getrandom = "0.2"
if-addrs = "0.13"
mdns-sd = "0.13"
quinn = "0.11"
rcgen = "0.13"
snow = "0.10"
thiserror = "2"
tokio = { version = "1", features = ["full"] }
tracing = "0.1"
uuid = "1"
x25519-dalek = { version = "2", features = ["static_secrets"] }
zbus = { version = "4", default-features = false, features = ["tokio"] }
