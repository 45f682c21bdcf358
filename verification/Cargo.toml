[package]
name = "servertime"
version = "0.1.0"
edition = "2021"
publish = false

[dependencies]
httparse = "1"
httpdate = "1"
http = "1"
futures-lite = "2"
tokio = { version = "1", features = ["rt", "net", "io-util", "time"] }
tokio-rustls = { version = "0.26", default-features = false, features = ["ring", "logging", "tls12"] }
rustls = { version = "0.23", default-features = false, features = ["ring", "logging", "std", "tls12"] }
webpki-roots = "0.26"
