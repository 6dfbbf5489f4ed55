[package]
name = "castavox-core"
version = "0.1.0"
edition = "2021"
publish = false

[dependencies]
anyhow = "1"
candle-core = { version = "0.9", default-features = false }
candle-nn = { version = "0.9", default-features = false }
candle-transformers = { version = "0.9", default-features = false }
cpal = "0.17"
flate2 = "1"
getrandom = "0.3"
hmac = "0.12"
mdns-sd = "*"
parking_lot = "0.12"
printpdf = { version = "0.7", default-features = false }
pulldown-cmark = { version = "0.13", default-features = false }
reqwest = { version = "0.13", default-features = false, features = ["blocking", "json", "rustls-no-provider"] }
rusqlite = { version = "*", features = ["bundled"] }
rustls = { version = "0.23", default-features = false, features = ["ring", "std", "tls12"] }
serde = { version = "1", features = ["derive"] }
serde_json = "1"
sha2 = "0.10"
tokenizers = { version = "0.22", default-features = false, features = ["fancy-regex"] }
whisper-rs = { version = "0.15", default-features = false }
zip = { version = "2", default-features = false, features = ["deflate"] }
