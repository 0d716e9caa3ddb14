[package]
name = "linkedin_queens"
version = "0.1.0"
edition = "2021"
publish = false

[dependencies]
image = "*"
scraper = "*"
thirtyfour = "*"
tokio = { version = "*", features = ["macros", "rt-multi-thread", "time"] }
