[package]
name = "sonic"
version = "0.1.0"
edition = "2021"
publish = false

[dependencies]
num_cpus = "1"
crossbeam-channel = "0.5"
ctrlc = "3"
tracing = "0.1"
thiserror = "2"
serde = { version = "1", features = ["derive"] }
tokio = { version = "1", features = ["rt", "time"] }
iceoryx2 = "0.8"
