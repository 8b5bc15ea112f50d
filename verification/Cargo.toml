[package]
name = "zook"
version = "0.1.0"
edition = "2021"
publish = false

[dependencies]
ark-std = "=0.5.0"
ark-ff = "=0.5.0"
ordered-float = { version = "=5.5.1", features = ["serde"] }
serde = { version = "=1.0.229", features = ["derive"] }
spongefish = "=0.3.0"
thiserror = "=2.0.21"
zeroize = "=1.9.1"
