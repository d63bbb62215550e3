[package]
name = "caddy_dashboard"
version = "0.1.0"
edition = "2021"
publish = false

[dependencies]
rand = "0.8"
urlencoding = "2"
serde_json = "1"
serde = { version = "1", features = ["derive"] }
actix-web = { version = "4", default-features = false, features = ["macros", "cookies"] }
actix-files = "0.6"
redb = "*"
tokio = { version = "1", features = ["full"] }
reqwest = { version = "0.12", default-features = false, features = ["json", "stream", "rustls-tls"] }
futures-util = "0.3"
chrono = "0.4"
maxminddb = "*"
log = "0.4"
simplelog = "0.12"
miette = "7"
argon2 = "0.5"
