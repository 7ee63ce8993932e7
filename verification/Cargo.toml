[package]
name = "snap"
version = "0.1.0"
edition = "2021"
publish = false

[dependencies]
anyhow = "=1.0.104"
axum = "=0.8.9"
clap = { version = "=4.6.7", features = ["derive"] }
hf-hub = { version = "=0.4.3", default-features = false, features = ["ureq", "rustls-tls"] }
libc = "0.2"
llama-cpp-sys-2 = "=0.1.160"
serde = { version = "1", features = ["derive"] }
serde_json = { version = "=1.0.154", features = ["preserve_order"] }
tokio = { version = "1", features = ["rt-multi-thread", "net", "signal", "macros"] }
tracing = "0.1"
tracing-subscriber = { version = "0.3", features = ["env-filter"] }
ureq = { version = "=3.5.1", features = ["json"] }
windows-sys = { version = "0.52", features = ["Win32_Foundation", "Win32_System_Threading"] }
