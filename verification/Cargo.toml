[package]
name = "traceviewer"
version = "0.1.0"
edition = "2021"
publish = false

[dependencies]
anyhow = "1"
bytesize = "2"
clap = { version = "4", features = ["derive", "env"] }
crossterm = { version = "0.29", features = ["osc52"] }
serde_json = { version = "1", features = ["preserve_order"] }
