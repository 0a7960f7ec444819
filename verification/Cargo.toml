[package]
name = "dmxwifi"
version = "0.1.0"
edition = "2021"
publish = false

[dependencies]
camino = "*"
dm_x = "*"
serde = { version = "1", features = ["derive"] }
toml = "*"
