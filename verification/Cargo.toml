[package]
name = "hexpm"
version = "1.0.0"
edition = "2021"
publish = false

[dependencies]
base16 = "*"
flate2 = "*"
http = "*"
http-auth-basic = "*"
prost = "*"
pubgrub = "0.3"
ring = "*"
serde = { version = "*", features = ["derive"] }
serde_json = "*"
thiserror = "*"
x509-parser = "*"
