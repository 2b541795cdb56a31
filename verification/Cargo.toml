[package]
name = "telegram_inline_quotations_bot"
version = "1.0.0"
edition = "2021"
publish = false

[dependencies]
clap = "2"
futures = "0.3"
log = "0.4"
log4rs = "1"
rand = "0.7"
teloxide = "0.3"
tokio = { version = "0.2", features = ["macros", "rt-threaded"] }
