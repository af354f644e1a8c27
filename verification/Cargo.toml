[package]
name = "episode_check"
version = "0.1.0"
edition = "2021"
publish = false

[dependencies]
clap = { version = "4", features = ["derive"] }
serde = { version = "1", features = ["derive"] }
thiserror = "2"
time = { version = "0.3", features = ["macros", "parsing"] }
ureq = { version = "3", features = ["json"] }
urlencoding = "2"
