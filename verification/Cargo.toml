[package]
name = "yaak"
version = "0.1.0"
edition = "2021"
publish = false

[dependencies]
urlencoding = "2"
serde_json = "1"
sha2 = "0.10"
hex = "0.4"
rusqlite = "*"
r2d2 = "0.8"
r2d2_sqlite = "*"
include_dir = "0.7"
log = "0.4"
