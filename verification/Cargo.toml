[package]
name = "prefix_crawl"
version = "0.1.0"
edition = "2021"
publish = false

[dependencies]
failure = "0.1"
futures = "0.3"
rusoto_core = "0.45"
rusoto_s3 = "0.45"
tokio = { version = "0.2", features = ["full"] }
