[package]
name = "wayhand-mcp"
version = "0.1.0"
edition = "2021"
publish = false

[dependencies]
anyhow = "=1.0.104"
ashpd = { version = "=0.13.13", features = ["screenshot"] }
base64 = "=0.22.1"
chrono = "=0.4.45"
evdev = "=0.13.2"
libc = "=0.2.191"
memmap2 = "=0.9.12"
png = "=0.18.1"
rmcp = { version = "=3.8.0", features = ["transport-io"] }
rustix = { version = "=1.1.6", features = ["fs"] }
serde = { version = "=1.0.229", features = ["derive"] }
serde_json = "=1.0.154"
tokio = { version = "=1.54.1", features = ["fs", "io-util", "macros", "process", "rt-multi-thread", "signal", "sync", "time"] }
tokio-util = "=0.7.20"
tracing = "=0.1.44"
tracing-subscriber = "=0.3.23"
wayland-client = "=0.31.15"
wayland-protocols-misc = { version = "=0.3.12", features = ["client"] }
wayland-protocols-wlr = { version = "=0.3.12", features = ["client"] }
xkbcommon = "=0.9.0"
