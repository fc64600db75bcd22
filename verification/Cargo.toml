[package]
name = "autowhitelist"
version = "0.1.0"
edition = "2021"
publish = false

[dependencies]
tokio = { version = "1", default-features = false, features = ["sync", "time", "rt", "macros"] }
rand = "0.8"
uuid = { version = "1", features = ["v4"] }
log = "0.4"
sqlx = { version = "0.7", default-features = false, features = ["runtime-tokio", "sqlite"] }
lettre = { version = "0.11", default-features = false, features = ["smtp-transport", "tokio1", "builder"] }
actix-web = { version = "4", default-features = false, features = ["macros"] }
actix-files = "0.6"
actix-rt = "2"
