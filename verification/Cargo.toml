[package]
name = "parinfer_nvim"
version = "0.1.0"
edition = "2021"
publish = false

[dependencies]
unicode-segmentation = "1"
unicode-width = "0.2"
mlua = { version = "0.10", features = ["luajit", "module"] }
