[package]
name = "task_tracker"
version = "0.1.0"
edition = "2021"
publish = false

[dependencies]
anyhow = "1"
chrono = "0.4"
clap = { version = "4", features = ["derive"] }
diesel = { version = "2", features = ["sqlite"] }
diesel_migrations = "2"
prettytable-rs = "0.10"
tempfile = "3"
