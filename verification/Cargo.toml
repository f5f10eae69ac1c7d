[package]
name = "cs2_dumper"
version = "0.1.0"
edition = "2021"
publish = false

[dependencies]
pelite = "0.10"
memflow = "0.2"
memflow-native = "0.2"
anyhow = "1"
clap = { version = "4", features = ["derive"] }
log = "0.4"
serde = { version = "1", features = ["derive"] }
serde_json = "1"
simplelog = "0.12"
rayon = "1"
