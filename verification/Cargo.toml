[package]
name = "cookie_bot"
version = "0.1.0"
edition = "2021"
publish = false

[dependencies]
chrono = "0.4"
chrono-tz = "*"
tokio = { version = "1", features = ["macros", "rt-multi-thread", "sync", "time"] }
futures = "0.3"
bytes = "*"
log = "0.4"
pretty_env_logger = "*"
dotenv = "*"
async-trait = "*"
telegram-bot = "0.8"
thirtyfour = "*"
reqwest = "*"
