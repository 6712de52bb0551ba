[package]
name = "replica_search"
version = "0.1.0"
edition = "2021"
publish = false

[dependencies]
chrono = "0.4"
mime_guess = "2"
bip_metainfo = "0.12"
serde = { version = "1", features = ["derive"] }
serde_json = "1"
tokio = { version = "1", features = ["rt-multi-thread", "macros", "sync", "signal", "time", "io-util"] }
reqwest = { version = "0.11", default-features = false, features = ["json"] }
rusoto_core = { version = "0.48", default-features = false, features = ["rustls"] }
rusoto_s3 = { version = "0.48", default-features = false, features = ["rustls"] }
rusoto_sns = { version = "0.48", default-features = false, features = ["rustls"] }
rusoto_sqs = { version = "0.48", default-features = false, features = ["rustls"] }
uuid = { version = "1", features = ["v4"] }
warp = "0.3"
futures = "0.3"

[dev-dependencies]
url = "2"
