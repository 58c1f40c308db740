[package]
name = "track_local"
version = "0.1.0"
edition = "2021"
publish = false

[dependencies]
arc-swap = "1"
bytes = "1"
chrono = "0.4"
crossbeam-utils = "0.8"
dashmap = "6"
log = "0.4"
rtcp = "*"
rtp = "*"
sdp = "*"
tokio = { version = "1", features = ["sync", "rt", "time"] }
webrtc-util = "*"
