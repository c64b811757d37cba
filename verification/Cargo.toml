[package]
name = "emulator_rs"
version = "0.1.0"
edition = "2021"
publish = false

[dependencies]
crossbeam = "*"
futures = "*"
num_cpus = "*"
regex = "*"
serde = { version = "*", features = ["derive"] }
serde_json = "*"
serde_path_to_error = "*"
serde_yaml = "*"
tokio = { version = "*", features = ["rt-multi-thread", "macros", "fs"] }
