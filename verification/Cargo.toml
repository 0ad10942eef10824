[package]
name = "msk144plus"
version = "0.1.0"
edition = "2021"
publish = false

[dependencies]
chrono = "0.4"
dirs = "5"
anyhow = "1"
clap = { version = "4", features = ["derive"] }
cpal = "0.15"
env_logger = "0.11"
hound = "3"
log = "0.4"
num-complex = "0.4"
rayon = "1"
rubato = "0.15"
rusqlite = { version = "0.31", features = ["bundled"] }
rustfft = "6"
serde = { version = "1", features = ["derive"] }
toml = "0.8"
