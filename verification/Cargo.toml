[package]
name = "lbp_archive_dl"
version = "0.1.0"
edition = "2021"
publish = false

[dependencies]
hex = "*"
sha1 = "*"
clap = { version = "*", features = ["derive"] }
tokio = { version = "*", features = ["macros", "rt-multi-thread"] }
reqwest = { version = "*", default-features = false }
