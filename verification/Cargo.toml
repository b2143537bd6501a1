[package]
name = "minsec"
version = "0.1.4"
edition = "2021"
publish = false

[dependencies]
aho-corasick = "1"
anyhow = "1"
base64 = "0.22"
clap = { version = "4", features = ["derive"] }
ed25519-dalek = "2"
futures-core = "0.3"
getrandom = "0.3"
glob = "0.3"
inotify = "0.11"
ipnet = { version = "2", features = ["serde"] }
libc = "0.2"
memchr = "2"
regex = "1"
serde = { version = "1", features = ["derive"] }
serde_json = "1"
sha2 = "0.10"
tokio = { version = "1", features = ["rt", "net", "time", "signal", "io-util", "sync", "process", "macros", "fs"] }
toml = "0.8"
tracing = "0.1"
ureq = "3"
