[package]
name = "tf_df"
version = "0.1.0"
edition = "2021"
publish = false

[dependencies]
clap = { version = "4", features = ["derive"] }
flate2 = "1"
itertools = "0.12"
num_cpus = "1"
rayon = "1"
rustc-hash = "1.1"
serde = { version = "1", features = ["derive"] }
serde_json = "1"
spmc = "0.3"
tar = "0.4"
walkdir = "2"
