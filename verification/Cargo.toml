[package]
name = "web_crawler"
version = "0.1.0"
edition = "2021"
publish = false

[dependencies]
url = "2"
select = "*"
reqwest = { version = "0.11", default-features = false, features = ["rustls-tls"] }
futures = "0.3"
tokio = { version = "1", features = ["macros", "rt-multi-thread"] }
warp = { version = "0.3", default-features = false }
serde = { version = "1", features = ["derive"] }
