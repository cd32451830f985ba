[package]
name = "kult_node"
version = "0.1.0"
edition = "2021"
publish = false

[dependencies]
atomicwrites = "0.4"
futures = "0.3"
futures-timer = "3"
postcard = { version = "1", default-features = false, features = ["alloc"] }
rand_core = { version = "0.6", features = ["getrandom"] }
serde = { version = "1", features = ["derive"] }
sha2 = "0.10"
subtle = "2"
zeroize = { version = "1", features = ["derive"] }
