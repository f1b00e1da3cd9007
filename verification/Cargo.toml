[package]
name = "unicode_le"
version = "0.1.0"
edition = "2021"
publish = false

[dependencies]
unicode-script = "0.5.8"
unicode-security = "0.1.2"
unicode-normalization = "0.1.25"
serde = { version = "1", features = ["derive"] }
serde_json = "1"
ignore = "0.4"
