[package]
name = "llmd"
version = "0.1.0"
edition = "2021"
publish = false

[dependencies]
regex = "1"
serde = { version = "1", features = ["derive"] }
serde_json = "1"
thiserror = "1"
tokio = { version = "1", features = ["full"] }
axum = { version = "=0.6.20", features = ["ws"] }
hyper = "=0.14.32"
tower = { version = "=0.4.13", features = ["limit"] }
tower-http = { version = "=0.4.4", features = ["cors", "fs", "trace"] }
jsonwebtoken = "=8.3.0"
clap = { version = "4", features = ["derive"] }
toml = "0.8"
rand = "0.8"
tracing = "0.1"
tracing-subscriber = { version = "0.3", features = ["env-filter"] }
futures-util = "0.3"
async-stream = "0.3"
async-trait = "0.1"
directories = "5"
minidom = "=0.15.2"
zip = { version = "=4.6.1", default-features = false, features = ["deflate"] }
pdf-extract = "*"
hora = "=0.1.1"
llm = "=0.1.1"
