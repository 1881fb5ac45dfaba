[package]
name = "rsteria2"
version = "0.1.0"
edition = "2021"
publish = false

[dependencies]
blake2 = "0.10"
bytes = "1"
h3 = "0.0.8"
h3-quinn = "0.0.10"
http = "1"
quinn = { version = "0.11", default-features = false, features = ["log", "runtime-tokio", "rustls-ring"] }
quinn-proto = { version = "0.11", default-features = false, features = ["rustls-ring"] }
rand = "0.9"
rustls = { version = "0.23", default-features = false, features = ["ring", "std", "tls12", "logging"] }
rustls-pemfile = "2"
rustls-pki-types = "1"
sha2 = "0.10"
thiserror = "2"
tokio = { version = "1", features = ["net", "rt", "rt-multi-thread", "sync", "io-util", "time", "macros"] }
tracing = "0.1"
webpki-roots = "1"
