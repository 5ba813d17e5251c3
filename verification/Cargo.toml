[package]
name = "timetrax"
version = "0.1.0"
edition = "2021"
publish = false

[dependencies]
chrono = "*"
holiday_de = "*"
rusqlite = { version = "*", features = ["bundled"] }
