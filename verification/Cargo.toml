[package]
name = "pdfsigner"
version = "0.1.0"
edition = "2021"
publish = false

[dependencies]
openssl = "0.10"
chrono = { version = "0.4", default-features = false, features = ["clock", "std"] }
hex = "0.4"
base64 = "0.22"
x509-parser = "0.16"
der-parser = "9"
rsa = "0.9"
serde = { version = "1", features = ["derive"] }
thiserror = "1"
tokio = { version = "1", features = ["fs"] }
napi = { version = "2", default-features = false, features = ["napi4", "tokio_rt"] }
napi-derive = "2"
aws-config = { version = "1", default-features = false, features = ["behavior-version-latest", "rt-tokio"] }
aws-sdk-s3 = { version = "1", default-features = false, features = ["behavior-version-latest", "rt-tokio"] }
