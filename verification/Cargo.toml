[package]
name = "iv_compat"
version = "0.1.0"
edition = "2021"
publish = false

[dependencies]
petgraph = "*"
itertools = "*"
serde_json = "*"
serde = { version = "*", features = ["derive"] }
axum = "*"
axum-extra = { version = "*", features = ["query"] }
configparser = "*"
minijinja = "*"
mysql = "*"
tokio = { version = "*", features = ["full"] }
tower-http = { version = "*", features = ["fs"] }
