[package]
name = "geodesic_wallpaper"
version = "0.1.0"
edition = "2021"
publish = false

[dependencies]
serde = { version = "1", features = ["derive"] }
toml = "*"
thiserror = "*"
clap = { version = "4", features = ["derive"] }
image = { version = "*", default-features = false, features = ["gif", "png"] }
tracing = "*"
