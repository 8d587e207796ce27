[package]
name = "fdb-extract"
version = "0.1.0"
edition = "2021"
publish = false

[dependencies]
anyhow = "1"
clap = { version = "4", features = ["derive"] }
ctrlc = "3"
indicatif = "0.17"
memmap2 = "0.9"
postgres = "0.19"
rcgen = { version = "0.13", default-features = false, features = ["pem", "ring", "x509-parser"] }
rustls = { version = "0.23", default-features = false, features = ["ring", "std", "tls12", "logging"] }
rustls-pemfile = "2"
serde = { version = "1", features = ["derive"] }
serde_json = "1"
x509-parser = "0.16"
