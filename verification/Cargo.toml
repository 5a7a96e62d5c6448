[package]
name = "b20crunch"
version = "0.1.0"
edition = "2021"
publish = false

[dependencies]
anyhow = "1"
clap = { version = "4", features = ["derive"] }
ctrlc = "3"
num_cpus = "1"
opencl3 = "0.12"
serde = { version = "1", features = ["derive"] }
serde_json = "1"
tiny-keccak = { version = "2", features = ["keccak"] }
tokio = { version = "1", features = ["rt-multi-thread"] }
