[package]
name = "compression_tool"
version = "0.1.0"
edition = "2021"
publish = false

[dependencies]
actix-web = { version = "4", default-features = false, features = ["macros"] }
bitstream-io = "*"
clap = { version = "4", features = ["cargo"] }
serde_json = "1"
tokio = { version = "1", features = ["full"] }
unicode-segmentation = "1"
