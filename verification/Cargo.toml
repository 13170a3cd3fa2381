[package]
name = "mailmerge"
version = "0.1.0"
edition = "2021"
publish = false

[dependencies]
csv = "*"
lettre = { version = "*", default-features = false, features = ["smtp-transport", "builder"] }
serde = { version = "*", features = ["derive"] }
clap = { version = "*", features = ["derive", "env"] }
chrono = "*"
dotenv = "*"
indicatif = "*"
