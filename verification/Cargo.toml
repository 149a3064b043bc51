[package]
name = "storestest"
version = "0.1.0"
edition = "2021"
publish = false

[dependencies]
uuid = { version = "*", features = ["v4"] }
leptos = "*"
leptos_meta = "*"
leptos_router = "*"
reactive_stores = "*"
