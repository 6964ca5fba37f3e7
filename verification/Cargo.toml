[package]
name = "thermaltaked"
version = "0.1.0"
edition = "2021"
publish = false

[dependencies]
anyhow = "1"
chrono = "0.4"
clap = { version = "4", features = ["derive"] }
image = { version = "0.25", default-features = false, features = ["jpeg", "png"] }
imageproc = { version = "0.25", default-features = false }
ab_glyph = "0.2"
indexmap = { version = "2", features = ["serde"] }
libc = "0.2"
serde = { version = "1", features = ["derive"] }
signal-hook = "0.3"
thiserror = "2"
toml = "0.8"
ureq = { version = "3", features = ["json"] }
zbus = "5"
