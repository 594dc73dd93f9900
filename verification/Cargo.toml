[package]
name = "pack"
version = "0.1.0"
edition = "2021"
publish = false

[dependencies]
clap = { version = "*", features = ["derive"] }
deb-version = "*"
debcontrol = "*"
debpkg = "*"
env_logger = "*"
flate2 = "*"
log = "*"
reqwest = { version = "*", default-features = false, features = ["blocking"] }
rusqlite = { version = "*", features = ["functions", "bundled"] }
sha2 = "*"
tar = "*"
tempfile = "*"
