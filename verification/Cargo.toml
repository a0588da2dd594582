[package]
name = "abdb"
version = "0.1.0"
edition = "2021"
publish = false

[dependencies]
bytemuck = "1"
clap = { version = "4", default-features = false, features = ["std", "derive", "help"] }
datafusion = { version = "*", default-features = false, features = ["parquet"] }
duckdb = { version = "1", default-features = false }
tokio = { version = "1", default-features = false, features = ["rt-multi-thread"] }
