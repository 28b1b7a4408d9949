[package]
name = "neuro_arg"
version = "0.1.0"
edition = "2021"
publish = false

[dependencies]
aes = "=0.8.4"
base64 = "=0.22.1"
num = "=0.4.3"
itertools = "=0.15.0"
image = { version = "=0.25.10", default-features = false, features = ["png"] }
hound = "=3.5.1"
rustfft = "=6.4.1"
argmin = "=0.11.0"
argmin-math = { version = "=0.5.1", features = ["vec"] }
rayon = "=1.12.0"
ffmpeg-next = "=9.0.0"
