[package]
name = "ringboard"
version = "0.1.0"
edition = "2021"
publish = false

[dependencies]
arrayvec = { version = "=0.7.8", features = ["serde"] }
base64 = "=0.22.1"
clap = { version = "=4.6.7", features = ["derive"] }
clap-num = "=1.2.0"
crossbeam-channel = "=0.5.17"
dirs = "=7.0.0"
eframe = { version = "0.32", default-features = false, features = ["default_fonts", "glow", "x11", "wayland"] }
error-stack = "=0.8.0"
fuc_engine = "=3.2.1"
image = { version = "=0.25.10", default-features = false, features = ["png", "jpeg"] }
itoa = "=1.0.18"
memchr = "=2.8.3"
mime_guess = "=2.0.5"
quick-xml = { version = "=0.42.0", features = ["serialize"] }
rand = "=0.8.8"
rand_distr = "=0.4.3"
rand_xoshiro = "=0.6.0"
regex = "=1.13.1"
rustc-hash = "=2.1.3"
rustix = { version = "=1.1.6", features = ["event", "fs", "mm", "net", "process", "stdio", "thread"] }
serde = { version = "=1.0.229", features = ["derive"] }
serde_json = "=1.0.154"
smallvec = "=1.16.4"
thiserror = "=2.0.21"
toml = "=1.1.8"
