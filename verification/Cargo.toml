[package]
name = "crawler"
version = "0.1.0"
edition = "2021"
publish = false

[dependencies]
chrono = "0.4"
clap = "4"
crossbeam = "0.8"
log = "0.4"
log4rs = "1"
rayon = "1"
regex = "1"
reqwest = { version = "0.12", default-features = false, features = ["blocking", "rustls-tls"] }
serde = { version = "1", features = ["derive"] }
serde_json = "1"
sqlx = { version = "0.8", default-features = false, features = ["any", "mysql", "runtime-tokio"] }
tokio = { version = "1", features = ["rt"] }
toml = "0.8"
