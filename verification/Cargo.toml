[package]
name = "outline_toc"
version = "0.1.0"
edition = "2021"
publish = false

[dependencies]
slab = "*"
sha256 = { version = "*", default-features = false }
mime_guess = "*"
url = "*"
serde = { version = "*", features = ["derive"] }
simd-json = "*"
anyhow = "*"
thiserror = "*"
glob = "*"
axum = { version = "*", features = ["ws"] }
tokio = { version = "*", features = ["full"] }
tower-http = { version = "*", features = ["cors"] }
tracing = "*"
tracing-subscriber = { version = "*", features = ["env-filter"] }
tracing-log = "*"
portpicker = "*"
reqwest = { version = "*", default-features = false }
