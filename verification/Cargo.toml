[package]
name = "coulomb"
version = "0.1.0"
edition = "2021"
publish = false

[dependencies]
rand = "=0.8.8"
rand_pcg = { version = "=0.3.1", features = ["serde1"] }
rustfft = "=6.4.1"
num-complex = "=0.4.6"
bytemuck = { version = "=1.25.2", features = ["derive"] }
naga = { version = "=0.19.2", features = ["wgsl-in", "spv-out"] }
thiserror = "1"
pollster = "0.3"
wgpu = "=0.19.4"
jni = "=0.21.1"
raw-window-handle = "0.6"
ndk-sys = "0.6"
serde = { version = "=1.0.229", features = ["derive"] }
serde_json = "=1.0.154"
