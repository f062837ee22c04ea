[package]
name = "file_manager"
version = "0.1.0"
edition = "2021"
publish = false

[dependencies]
actix-web = { version = "4", default-features = false, features = ["macros", "cookies", "secure-cookies"] }
actix-files = "0.6"
actix-multipart = { version = "0.7", default-features = false }
actix-session = { version = "0.10", features = ["cookie-session"] }
futures-util = "0.3"
percent-encoding = "2"
serde = { version = "1", features = ["derive"] }
