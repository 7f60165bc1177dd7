[package]
name = "hashmyfiles"
version = "0.1.0"
edition = "2021"
publish = false

[dependencies]
anyhow = "1"
blake3 = { version = "1", features = ["pure"] }
chrono = "0.4"
csv = "1"
glib = "0.19"
gtk4 = "0.8"
hex = "0.4"
libadwaita = "0.6"
libc = "0.2"
rayon = "1"
serde = { version = "1", features = ["derive"] }
serde_json = "1"
sha2 = "0.10"
walkdir = "2"
