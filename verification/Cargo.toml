[package]
name = "scan"
version = "0.1.0"
edition = "2021"
publish = false

[dependencies]
axum = "0.8"
axum-extra = { version = "0.10", features = ["cookie"] }
time = "0.3"
chrono = "0.4"
serde = { version = "1", features = ["derive"] }
serde_json = "1"
tokio = { version = "1", features = ["full"] }
tracing = "0.1"
yew = { version = "0.21", features = ["csr"] }
gloo-net = "0.6"
web-sys = { version = "0.3", features = ["HtmlInputElement"] }
js-sys = "0.3"
wasm-bindgen-futures = "0.4"
