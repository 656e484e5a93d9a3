[package]
name = "gitkay"
version = "0.1.0"
edition = "2021"
publish = false

[dependencies]
chrono = "=0.4.45"
dirs = "=7.0.0"
egui = "=0.37.0"
fontdb = "=0.24.0"
git2 = { version = "=0.21.0", default-features = false, features = ["vendored-libgit2"] }
log = "=0.4.35"
serde = { version = "=1.0.229", features = ["derive"] }
toml = "=1.1.8"
two-face = { version = "=0.5.2", default-features = false, features = ["syntect-fancy"] }

[dev-dependencies]
tempfile = "=3.27.0"
