[package]
name = "compression"
version = "0.1.0"
edition = "2021"
publish = false

[dependencies]
num-complex = "0.4"
num-traits = "0.2"
bincode = "1"
wav = "*"
bmp = "*"
clap = { version = "4", features = ["derive"] }
thiserror = "*"
plotly = "*"

[dev-dependencies]
rustfft = "6"
