[package]
name = "chunk_upload"
version = "0.1.0"
edition = "2021"
publish = false

[dependencies]
actix-web = "*"
actix-cors = "*"
actix-multipart = "*"
futures-util = "*"
