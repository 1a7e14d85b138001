[package]
name = "s3sync"
version = "0.1.0"
edition = "2021"
publish = false

[dependencies]
clap = { version = "4", features = ["derive"] }
home = "*"
rusoto_core = { version = "0.48", default-features = false, features = ["rustls"] }
rusoto_credential = "0.48"
rusoto_s3 = { version = "0.48", default-features = false, features = ["rustls"] }
serde = { version = "1", features = ["derive"] }
serde_ini = "0.2"
tokio = { version = "1", features = ["rt-multi-thread", "macros", "fs", "io-util"] }

[dev-dependencies]
tar = "0.4"
