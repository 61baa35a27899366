[package]
name = "rust_tydi_packages"
version = "0.1.0"
edition = "2021"
publish = false

[dependencies]
bytemuck = "1"
chrono = { version = "0.4", default-features = false, features = ["serde", "std"] }
proc-macro2 = "1"
quote = "1"
serde = { version = "1", features = ["derive"] }
serde_json = "1"
syn = { version = "2", features = ["full"] }
