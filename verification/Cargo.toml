[package]
name = "suspense_reproduction"
version = "0.1.0"
edition = "2021"
publish = false

[dependencies]
leptos = { version = "=0.5.7", features = ["csr"] }
leptos_meta = { version = "=0.5.7", features = ["csr"] }
leptos_router = { version = "=0.5.7", features = ["csr"] }
log = "=0.4.34"
serde = { version = "=1.0.229", features = ["derive"] }
tracing = "=0.1.44"
