[package]
name = "infoscreen"
version = "0.1.0"
edition = "2021"
publish = false

[dependencies]
anyhow = "1"
bytes = "1"
chrono = { version = "0.4", features = ["unstable-locales"] }
clap = { version = "4", features = ["derive"] }
feed-rs = "2"
figment = { version = "0.10", features = ["toml"] }
futures-util = "0.3"
hex_color = "3"
icalendar = { version = "0.16", features = ["chrono-tz"] }
json-rpc-types = "*"
regex = "1"
reqwest = { version = "0.12", default-features = false, features = ["json", "cookies", "charset", "http2", "rustls-tls"] }
scraper = "*"
serde = { version = "1", features = ["derive"] }
sys-locale = "0.3"
tokio = { version = "1", features = ["full"] }
tokio-util = "0.7"
tracing = "0.1"
tracing-subscriber = { version = "0.3", features = ["env-filter"] }
xdg = "2"
