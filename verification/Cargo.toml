[package]
name = "butterworth"
version = "0.1.0"
edition = "2021"
publish = false

[dependencies]
hound = "3"
num-complex = "0.4"
plotters = "0.3"
rustfft = "6"
