[package]
name = "standings"
version = "0.1.0"
edition = "2021"
publish = false

[dependencies]
actix-web = { version = "*", default-features = false, features = ["macros"] }
chrono = { version = "*", features = ["serde"] }
dotenv = "*"
serde = { version = "*", features = ["derive"] }
sqlx = { version = "*", default-features = false, features = ["runtime-tokio", "postgres"] }
tokio = { version = "*", features = ["rt-multi-thread", "macros", "time"] }
tracing = "*"
tracing-actix-web = "*"
tracing-subscriber = "*"
