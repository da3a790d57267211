[package]
name = "pixelstratwar"
version = "0.1.0"
edition = "2021"
publish = false

[dependencies]
rand = "*"
uuid = { version = "*", features = ["v4"] }
base62 = "*"
actix = "*"
actix-cors = "*"
actix-web = "*"
actix-web-actors = "*"
actix-web-httpauth = "*"
async-trait = "*"
bytes = "*"
deadpool-redis = "*"
env_logger = "*"
log = "*"
redis = { version = "*", features = ["tokio-comp"] }
serde = { version = "*", features = ["derive"] }
tokio = { version = "*", features = ["macros", "rt-multi-thread", "sync"] }
