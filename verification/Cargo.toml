[package]
name = "coap"
version = "0.1.0"
edition = "2021"
publish = false

[dependencies]
coap-lite = "*"
tokio = { version = "1", features = ["full"] }
async-trait = "0.1"
log = "0.4"
