[package]
name = "cleaner"
version = "0.1.0"
edition = "2021"
publish = false

[dependencies]
clap = { version = "4", features = ["derive"] }
colored = "*"
crossbeam-channel = "*"
crossterm = "0.28"
humansize = "2"
indicatif = "*"
jwalk = "*"
num_cpus = "*"
ratatui = "0.29"
rayon = "*"
serde = { version = "1", features = ["derive"] }
toml = "*"
