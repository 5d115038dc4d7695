[package]
name = "obsidian_mirror"
version = "0.1.0"
edition = "2021"
publish = false

[dependencies]
percent-encoding = "=2.3.2"
pulldown-cmark = "=0.13.6"
bcrypt = "=0.19.3"
uuid = { version = "=1.29.0", features = ["v4"] }
jsonwebtoken = { version = "=10.4.0", default-features = false, features = ["rust_crypto"] }
hmac = "=0.13.0"
sha2 = "=0.11.1"
chrono = "=0.4.45"
regex-syntax = "=0.8.11"
serde = { version = "=1.0.229", features = ["derive"] }
serde_json = { version = "=1.0.154", features = ["preserve_order"] }
serde_yml = "=0.0.13"
ron = "=0.12.3"
walkdir = "=2.5.0"
anyhow = "=1.0.104"
tokio = { version = "=1.54.1", features = ["full"] }
actix-web = "=4.18.1"
tracing = "=0.1.44"
tracing-subscriber = { version = "=0.3.23", features = ["env-filter"] }
redb = "=4.4.0"
rayon = "=1.12.0"
zip = { version = "=9.2.2", default-features = false }
prometheus = { version = "=0.14.0", default-features = false }
tantivy = "=0.27.0"
num_cpus = "=1.17.0"
pathdiff = "=0.2.3"

[dev-dependencies]
