[package]
name = "web_video_player"
version = "0.1.0"
edition = "2021"
publish = false

[dependencies]
actix-files = "0.6"
actix-identity = "*"
actix-session = { version = "*", features = ["cookie-session"] }
actix-web = "4"
actix-web-httpauth = "0.8"
clap = { version = "4", features = ["derive"] }
log = "0.4"
pretty_env_logger = "0.5"
serde = { version = "1", features = ["derive"] }
serde_json = "1"
tinytemplate = "1"
