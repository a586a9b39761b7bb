[package]
name = "order_book_engine"
version = "0.1.0"
edition = "2021"
publish = false

[dependencies]
parity-db = "*"
base64 = "*"
serde = { version = "*", features = ["derive"] }
serde_json = "*"
axum = { version = "*", features = ["ws"] }
tokio = { version = "*", features = ["rt-multi-thread", "macros", "net", "time", "sync", "signal"] }
tokio-util = "*"
tokio-tungstenite = "*"
tower-http = { version = "*", features = ["trace"] }
futures-util = "*"
reqwest = { version = "*", default-features = false, features = ["json"] }
clap = { version = "*", features = ["derive"] }
tracing = "*"
tracing-subscriber = "*"
rand = "*"
rand_distr = "*"
anyhow = "*"
thiserror = "*"
uuid = { version = "*", features = ["v4"] }

[dev-dependencies]
tempfile = "*"
