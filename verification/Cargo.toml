[package]
name = "mio_ws"
version = "0.1.0"
edition = "2021"
publish = false

[dependencies]
bytes = "1"
tungstenite = { version = "0.24", default-features = false }
mio = { version = "1", features = ["net", "os-poll"] }
rustls = { version = "0.23", default-features = false, features = ["ring", "std", "tls12"] }
webpki-roots = "0.26"
crossbeam-channel = "0.5"
