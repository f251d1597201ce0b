[package]
name = "rolegate"
version = "0.1.0"
edition = "2021"
publish = false

[dependencies]
diesel = { version = "*", features = ["postgres_backend"] }
diesel-async = { version = "*", features = ["postgres", "bb8"] }
diesel_migrations = "*"
dotenv = "0.15"
poise = "*"
serenity = "*"
tokio = { version = "1", features = ["macros", "rt-multi-thread"] }
