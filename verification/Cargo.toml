[package]
name = "clippy_history"
version = "0.1.0"
edition = "2021"
publish = false

[dependencies]
directories = "5"
rusqlite = { version = "0.32", features = ["bundled"] }
serde = { version = "1", features = ["derive"] }
serde_json = "1"
zbus = "4"
tokio = { version = "1", features = ["rt-multi-thread", "macros"] }
anyhow = "1"
env_logger = "0.11"
async-channel = "2"
futures-util = "0.3"
gtk4 = "0.9"
libadwaita = { version = "0.7", features = ["v1_4"] }
gdk-pixbuf = "0.20"
gio = "0.20"
glib = "0.20"
