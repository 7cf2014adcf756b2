[package]
name = "chirpy-core"
version = "0.1.0"
edition = "2021"
publish = false

[dependencies]
anyhow = "1"
clap = { version = "4", features = ["derive"] }
cpal = "0.15"
crc = "3"
crossterm = "0.28"
hound = "3.5"
num-complex = "0.4"
ratatui = "0.29"
rustfft = "6"
tracing = "0.1"
tracing-subscriber = { version = "0.3", features = ["env-filter"] }
