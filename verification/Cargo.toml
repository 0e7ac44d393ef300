[package]
name = "funny_feed"
version = "0.1.0"
edition = "2021"
publish = false

[dependencies]
escpos = { version = "*", features = ["usb"] }
eyre = "*"
hostname = "*"
if-addrs = "*"
minreq = { version = "2.14.1", features = ["https"] }
serde = { version = "1", features = ["derive"] }
serde_json = "1"
time = { version = "0.3", features = ["formatting", "local-offset", "macros"] }
tiny_http = "*"
