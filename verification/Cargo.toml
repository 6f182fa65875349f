[package]
name = "covin_backend"
version = "0.1.0"
edition = "2021"
publish = false

[dependencies]
validator = { version = "0.14", features = ["phone"] }
serde = { version = "1", features = ["derive"] }
serde_json = "1"
chrono = "0.4"
tera = { version = "1", default-features = false }
tokio = { version = "1", features = ["macros", "rt"] }
reqwest = { version = "0.11", default-features = false, features = ["json", "rustls-tls"] }
rusoto_core = { version = "0.47", default-features = false, features = ["rustls"] }
rusoto_s3 = { version = "0.47", default-features = false, features = ["rustls"] }
rusoto_ses = { version = "0.47", default-features = false, features = ["rustls"] }
rusoto_dynamodb = { version = "0.47", default-features = false, features = ["rustls"] }
