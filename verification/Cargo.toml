[package]
name = "crowd_flow"
version = "0.1.0"
edition = "2021"
publish = false

[dependencies]
ndarray = "=0.15.6"
bevy = { version = "=0.13.2", default-features = false }
offset-polygon = "=0.1.0"
geo-types = "=0.4.3"
futures-lite = "=2.6.1"
rand = "=0.8.8"
rand_xoshiro = "=0.6.0"
clap = { version = "=4.6.7", features = ["derive"] }
anyhow = "=1.0.104"
serde = { version = "=1.0.229", features = ["derive"] }
rmp-serde = "=1.3.1"
