[package]
name = "blobsync"
version = "0.1.0"
edition = "2021"
publish = false

[dependencies]
azure_core = "*"
azure_storage_blob = "*"
eframe = { version = "*", default-features = false, features = ["default_fonts", "glow", "x11"] }
egui = "*"
egui_extras = "*"
futures = "*"
md5 = "*"
serde = { version = "*", features = ["derive"] }
serde_json = "*"
tokio = { version = "*", features = ["rt-multi-thread"] }
walkdir = "*"
