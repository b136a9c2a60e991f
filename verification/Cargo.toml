[package]
name = "blend_safe"
version = "0.1.0"
edition = "2021"
publish = false

[dependencies]
candid = "*"
hex = "*"
ic-cdk = "*"
libsecp256k1 = "*"
serde = { version = "*", features = ["derive"] }
