[package]
name = "axum-named-routes"
version = "0.1.0"
edition = "2021"
publish = false

[dependencies]
axum = "0.6"
futures = "0.3"
tower-layer = "0.3"
tower-service = "0.3"
