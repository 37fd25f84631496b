[package]
name = "rustydb"
version = "0.1.0"
edition = "2021"
publish = false

[dependencies]
bitstream-io = "0.8"
byteorder = "1"
chrono = "0.4"
uuid = { version = "0.8", features = ["v4"] }
serde = { version = "1", features = ["derive"] }
bincode = "1"

[dev-dependencies]
rand = "0.7"
