[package]
name = "secret_santa"
version = "0.1.0"
edition = "2021"
publish = false

[dependencies]
rand = "0.8"
diesel = { version = "2", features = ["postgres"] }
diesel-enum = "*"
dotenv = "0.15"
tide = "0.16"
serde = { version = "1", features = ["derive"] }
serde_json = "1"
futures = "0.3"
clap = { version = "4", features = ["derive"] }
ureq = { version = "2", features = ["json"] }
