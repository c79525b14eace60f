[package]
name = "miniserve"
version = "0.1.0"
edition = "2021"
publish = false

[dependencies]
actix-files = "0.6"
actix-rt = "2"
actix-web = { version = "4", default-features = false, features = ["macros"] }
actix-web-httpauth = "0.8"
mime = "0.3"
simplelog = "0.12"
structopt = "0.3"
yansi = "0.5"

[dev-dependencies]
crc32fast = "1"
tar = { version = "0.4", default-features = false }
zip = { version = "0.6", default-features = false }
