[package]
name = "xuexi"
version = "0.1.0"
edition = "2021"
publish = false

[dependencies]
chamkho = "=1.3.1"
csv = "=1.4.0"
dodo-zh = "=0.1.5"
serde = { version = "=1.0.229", features = ["derive"] }
serde_json = "=1.0.154"
wordcut-engine = "=1.1.9"
