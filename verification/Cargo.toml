[package]
name = "lava_search"
version = "0.1.0"
edition = "2021"
publish = false

[dependencies]
zstd = "*"
bincode = "1"
tokenizers = "*"
bytes = "*"
futures = "*"
tokio = { version = "*", features = ["full"] }
opendal = { version = "*", default-features = false, features = ["services-fs", "services-s3"] }
rand = "*"
aws-config = "*"
aws-sdk-s3 = "*"
