[package]
name = "lksu"
version = "0.1.0"
edition = "2021"
publish = false

[dependencies]
anyhow = "=1.0.104"
chrono = "=0.4.45"
colored = "=2.2.0"
libc = "=0.2.191"
mlua = { version = "=0.10.5", features = ["lua54", "vendored", "serialize"] }
nix = { version = "=0.29.0", features = ["user"] }
pam = "0.7"
rpassword = "=7.5.4"
rusqlite = { version = "=0.32.1", features = ["bundled"] }
serde = { version = "=1.0.229", features = ["derive"] }
users = "=0.11.0"
