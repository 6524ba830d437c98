[package]
name = "stampdist"
version = "0.1.0"
edition = "2021"
publish = false

[dependencies]
bcder = "0.7"
bytes = "1"
isahc = { version = "1.7", default-features = false, features = ["static-curl"] }
itertools = "0.13"
regex = "1"
reqwest = { version = "0.12", default-features = false, features = ["blocking", "rustls-tls"] }
ring = "0.17"
serde = { version = "1", features = ["derive"] }
serde_json = "1"
tar = "0.4"
tempdir = "0.3"
ureq = "3"
x509-certificate = "0.24"
zstd = "0.13"
