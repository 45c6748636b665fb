[package]
name = "multiworld"
version = "0.1.0"
edition = "2021"
publish = false

[dependencies]
chrono = "0.4"
futures = "0.3"
libc = "0.2"
rustls = "0.19"
tokio = { version = "1", features = ["net", "sync", "io-util", "rt"] }
webpki = "0.21"
webpki-roots = "0.21"

[dev-dependencies]
async-proto = "*"
