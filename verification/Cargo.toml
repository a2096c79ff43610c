[package]
name = "evergreen"
version = "0.1.0"
edition = "2021"
publish = false

[dependencies]
base64 = "0.22"
httparse = "1"
http = "1"
rand = "0.8"
reqwest = { version = "0.12", default-features = false }
tokio = { version = "1", features = ["full"] }
actix-web = { version = "4", default-features = false, features = ["macros"] }
log = "0.4"
serde = { version = "1", features = ["derive"] }
toml = "0.8"
rustls = "0.23"
tokio-rustls = "0.26"
webpki-roots = "0.26"
async-compression = { version = "0.4", features = ["tokio", "gzip"] }
