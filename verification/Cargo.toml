[package]
name = "tool4d-lsp-stdio"
version = "0.1.0"
edition = "2021"
publish = false

[dependencies]
anyhow = "1"
clap = { version = "4", features = ["derive", "env"] }
libc = "0.2"
serde_json = "1"
wait-timeout = "0.2"
windows-sys = { version = "0.60", features = ["Win32_Foundation", "Win32_Security", "Win32_System_JobObjects"] }
zed_extension_api = "*"
