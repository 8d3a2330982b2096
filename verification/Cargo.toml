[package]
name = "aurora"
version = "0.1.0"
edition = "2021"
publish = false

[dependencies]
pathfinding = "=4.16.0"
serde_json = { version = "=1.0.154", features = ["preserve_order"] }
fontdue = "=0.9.5"
hound = "=3.5.1"
image = "=0.25.10"
rapier2d = "=0.22.0"
rapier3d = "=0.22.0"
ttf-parser = { version = "=0.25.1", default-features = false }
symphonia = { version = "=0.6.1", features = ["mp3", "aac", "isomp4", "alac", "flac"] }
