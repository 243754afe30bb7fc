[package]
name = "tts-worker-rs"
version = "0.1.0"
edition = "2021"
publish = false

[dependencies]
serde_json = "1"
npyz = "0.8"
chrono = "0.4"
cpal = "*"
hound = "3"
rtrb = "*"
libc = "0.2"
libloading = "0.8"
llama-cpp-2 = "*"
ort = "=2.0.0-rc.10"
