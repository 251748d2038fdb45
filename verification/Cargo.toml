[package]
name = "voltpanel"
version = "0.1.0"
edition = "2021"
publish = false

[dependencies]
anyhow = "1"
base64 = "0.22"
chrono = "0.4"
dashmap = "6"
ed25519-dalek = "2"
flate2 = "1"
glob = "0.3"
hex = "0.4"
hmac = "0.12"
http-body-util = "0.1"
hyper = { version = "1", features = ["client", "http1"] }
hyper-rustls = { version = "0.27", default-features = false, features = ["http1", "http2", "ring", "tls12", "webpki-roots"] }
hyper-util = { version = "0.1", features = ["client-legacy", "http1", "http2", "tokio"] }
libc = "0.2"
mime_guess = "2"
percent-encoding = "2"
regex = "1"
rusqlite = { version = "0.31", features = ["bundled", "hooks", "backup", "limits"] }
serde = { version = "1", features = ["derive"] }
serde_json = "1"
sha2 = "0.10"
sysinfo = "0.30"
tar = "0.4"
tokio = { version = "1", features = ["full"] }
toml = "0.8"
tower-service = "0.3"
url = "2"
uuid = { version = "1", features = ["v4"] }
walkdir = "2"
zip = { version = "0.6", default-features = false, features = ["deflate"] }
