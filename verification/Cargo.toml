[package]
name = "rustdds"
version = "0.1.0"
edition = "2021"
publish = false

[dependencies]
byteorder = "1"
bytes = "1"
enumflags2 = { version = "0.6", features = ["serde"] }
itertools = "0.10"
log = "0.4"
mio = "0.6"
mio-extras = "2.0"
serde = { version = "1", features = ["derive"] }
