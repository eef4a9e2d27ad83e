[package]
name = "musicd2"
version = "0.1.0"
edition = "2021"
publish = false

[dependencies]
image = "*"
rusqlite = { version = "*", features = ["bundled"] }
mio = "0.6"
mio-extras = "*"
bytes = "*"
serde = { version = "*", features = ["derive"] }
serde_json = "*"
clap = "*"
shellexpand = "*"
log = "*"
