[package]
name = "shoe_store"
version = "0.1.0"
edition = "2021"
publish = false

[dependencies]
actix-web = "*"
actix-cors = "*"
actix-session = { version = "*", features = ["cookie-session"] }
serde = { version = "*", features = ["derive"] }
serde_json = "*"
log = "*"
env_logger = "*"
dotenv = "*"
