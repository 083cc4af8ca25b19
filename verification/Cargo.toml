[package]
name = "fluxdi"
version = "0.1.0"
edition = "2021"
publish = false

[dependencies]
futures = "=0.3.34"
tokio = { version = "=1.54.1", features = ["time", "rt", "macros"] }
axum = "=0.8.9"
actix-web = { version = "=4.18.1", default-features = false, features = ["macros"] }
syn = { version = "=3.0.9", features = ["full"] }
quote = "=1.0.47"
proc-macro2 = "=1.0.107"
tracing = "=0.1.44"
tracing-subscriber = "=0.3.23"
tracing-opentelemetry = "=0.34.0"
opentelemetry = "=0.33.1"
