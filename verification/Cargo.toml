[package]
name = "bookshelf2lefdef"
version = "0.1.0"
edition = "2021"
publish = false

[dependencies]
anyhow = "*"
clap = { version = "*", features = ["derive"] }
flexi_logger = "*"
log = "*"
tokio = { version = "*", features = ["macros", "rt-multi-thread"] }
