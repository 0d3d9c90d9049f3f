[package]
name = "wordle_solver"
version = "0.1.0"
edition = "2021"
publish = false

[dependencies]
dashmap = { version = "6", features = ["serde"] }
anyhow = "1"
bincode = { version = "2", features = ["serde"] }
clap = { version = "4", features = ["derive"] }
ctrlc = "3"
env_logger = "0.11"
log = "0.4"
ndarray = "0.16"
plotters = { version = "0.3", default-features = false, features = ["svg_backend", "all_series", "all_elements"] }
rayon = "1"
serde = { version = "1", features = ["derive"] }
serde_json = "1"
sled = "0.34"
thiserror = "2"
