[package]
name = "cargo_libyear"
version = "0.1.0"
edition = "2021"
publish = false

[dependencies]
anyhow = "1"
cargo_metadata = "*"
chrono = "0.4"
clap = { version = "4", features = ["derive"] }
crates_io_api = { version = "*", default-features = false, features = ["rustls"] }
prettytable-rs = "*"
tqdm = "*"
