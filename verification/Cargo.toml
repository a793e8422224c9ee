[package]
name = "grid_games"
version = "0.1.0"
edition = "2021"
publish = false

[dependencies]
rand = "=0.8.8"
telegram-bot = "=0.8.0"
tokio = { version = "=1.53.2", features = ["macros", "rt-multi-thread"] }
futures = "=0.3.34"
hyper = "=0.13.10"
hyper-socks2 = "=0.4.3"
