[package]
name = "seedfs"
version = "0.1.0"
edition = "2021"
publish = false

[dependencies]
anyhow = "1"
clap = { version = "4", features = ["derive"] }
console = "*"
dialoguer = "*"
fs_extra = "1"
indicatif = "*"
rand = "0.9"
rayon = "1"
regex = "1"
rustix = "*"
serde = { version = "1", features = ["derive"] }
serde_bencode = "0.2"
serde_bytes = "0.11"
serde_json = "1"
sha1_smol = "1"
thiserror = "*"
toml = "*"
ureq = { version = "3", default-features = false, features = ["json"] }
url = "2"
walkdir = "2"
