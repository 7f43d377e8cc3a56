[package]
name = "btm"
version = "0.1.0"
edition = "2021"
publish = false

[dependencies]
ruc = { version = "=11.0.1", features = ["cmd", "uau"] }
nix = { version = "=0.31.3", features = ["fs"] }
clap = { version = "=4.6.7", features = ["derive"] }

[dev-dependencies]
serde_json = "=1.0.151"
