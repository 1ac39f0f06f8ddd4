[package]
name = "gfty"
version = "0.1.0"
edition = "2021"
publish = false

[dependencies]
anyhow = "1"
base64 = "0.22"
chrono = "0.4"
clap = { version = "4", features = ["derive"] }
colored = "2"
hmac = "0.12"
httpdate = "1"
notify = "6"
reqwest = { version = "0.12", default-features = false, features = ["blocking", "rustls-tls"] }
resvg = "0.45"
roxmltree = "0.20"
serde = { version = "1", features = ["derive"] }
serde_json = "1"
sha2 = "0.10"
toml = "0.8"
usvg = "0.45"
xmltree = "0.11"

[dev-dependencies]
tempfile = "3"
