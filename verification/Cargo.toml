[package]
name = "babble"
version = "0.1.0"
edition = "2021"
publish = false

[dependencies]
anyhow = "1"
bitvec = "1"
csv = "1"
egg = "0.10"
log = "0.4"
ordered-float = "4"
rand = "0.8"
rustc-hash = "2"
serde = { version = "1", features = ["derive"] }
strum = { version = "0.26", features = ["derive"] }
thiserror = "1"
