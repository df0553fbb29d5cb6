[package]
name = "snix_refs"
version = "0.1.0"
edition = "2021"
publish = false

[dependencies]
sha2 = "=0.10.9"
md-5 = "0.10"
sha1 = "0.10"
tokio = { version = "=1.54.1", features = ["io-util", "rt"] }
pin-project = "=1.1.13"
clap = { version = "=4.6.7", features = ["derive"] }
thiserror = "=2.0.21"
