[package]
name = "lending_catalog"
version = "0.1.0"
edition = "2021"
publish = false

[dependencies]
candid = "*"
ic-cdk = "*"
ic-stable-structures = "0.5"
serde = { version = "1", features = ["derive"] }
