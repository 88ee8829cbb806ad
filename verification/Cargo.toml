[package]
name = "leansig"
version = "0.1.0"
edition = "2021"
publish = false

[dependencies]
ethereum_ssz = "*"
num-bigint = "0.4"
p3-field = "*"
p3-koala-bear = "*"
p3-symmetric = "*"
rand = "*"
serde = { version = "1", features = ["derive"] }
