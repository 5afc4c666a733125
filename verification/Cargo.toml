[package]
name = "jerky"
version = "0.1.0"
edition = "2021"
publish = false

[dependencies]
base64 = "0.22"
clap = { version = "4", features = ["derive"] }
dirs = "*"
flate2 = "1"
globset = "0.4"
js-semver = "*"
serde = { version = "1", features = ["derive"] }
serde_json = { version = "1", features = ["preserve_order"] }
sha1 = "0.10"
sha2 = "0.10"
tar = "0.4"
thiserror = "2"
ureq = "3"

[dev-dependencies]
tempfile = "3"
