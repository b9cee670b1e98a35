[package]
name = "indexer"
version = "0.1.0"
edition = "2021"
publish = false

[dependencies]
unicode-segmentation = "1"
tokio = { version = "1", features = ["macros", "rt-multi-thread"] }
tokio-postgres = "0.7"
postgres-native-tls = "0.5"
native-tls = "0.2"
dotenv = "0.15"
