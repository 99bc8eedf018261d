[package]
name = "common"
version = "0.1.0"
edition = "2021"
publish = false

[dependencies]
avian3d = { version = "0.3", default-features = false, features = ["3d", "f32", "parry-f32"] }
bevy = { version = "=0.16.1", default-features = false, features = ["std", "bevy_log"] }
bincode = { version = "=2.0.1", features = ["serde"] }
nevy = { version = "=0.1.0", default-features = false }
serde = { version = "=1.0.229", features = ["derive"] }
