[package]
name = "bevy_sfz"
version = "0.1.0"
edition = "2021"
publish = false

[dependencies]
sofiza = "=0.3.1"
percent-encoding = "=2.3.2"
thiserror = "=2.0.21"
bevy = { version = "=0.17.3", default-features = false, features = ["bevy_asset", "bevy_log", "std", "multi_threaded"] }
