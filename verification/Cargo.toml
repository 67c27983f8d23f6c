[package]
name = "pewpew"
version = "0.1.0"
edition = "2021"
publish = false

[dependencies]
bytes = "=0.4.12"
futures = "=0.1.31"
tokio-core = "=0.1.18"
tokio-io = "=0.1.13"
bincode = "=0.8.0"
serde = "=1.0.229"
serde_derive = "=1.0.229"
time = "=0.1.45"
nalgebra = { version = "=0.29.0", features = ["serde-serialize"] }
nphysics3d = "=0.24.0"
