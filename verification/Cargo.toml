[package]
name = "bevycss"
version = "0.1.0"
edition = "2021"
publish = false

[dependencies]
ahash = "0.8"
smallvec = "1"
cssparser = "*"
thiserror = "*"
bevy = { version = "0.16", default-features = false, features = ["bevy_ui", "bevy_text", "bevy_asset", "bevy_log"] }
