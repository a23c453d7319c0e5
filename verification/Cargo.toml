[package]
name = "furiosa_device"
version = "0.1.0"
edition = "2021"
publish = false

[dependencies]
array_tool = "1"
tokio = { version = "1", features = ["fs"] }
enum-display-derive = "0.1"
