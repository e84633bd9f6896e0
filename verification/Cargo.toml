[package]
name = "image_gallery"
version = "0.1.0"
edition = "2021"
publish = false

[dependencies]
uuid = { version = "*", features = ["v4"] }
actix-web = "*"
actix-cors = "*"
actix-files = "*"
actix-multipart = "*"
actix-web-httpauth = "*"
futures-util = "*"
serde = { version = "*", features = ["derive"] }
serde_json = "*"
