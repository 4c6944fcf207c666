[package]
name = "zenoh-gateway-poc"
version = "0.1.0"
edition = "2021"
publish = false

[dependencies]
ctrlc = "3.4"
futures = "0.3"
serde = { version = "1", features = ["derive"] }
serde_json = "1"
sha2 = "0.11.0"
tokio = { version = "1", features = ["full"] }
tokio-stream = { version = "0.1", features = ["time"] }
zenoh = { version = "1.8.0", default-features = false, features = ["transport_tcp"] }
