[package]
name = "my_dropbox_controller"
version = "0.1.0"
edition = "2021"
publish = false

[dependencies]
anyhow = "1"
async-recursion = "*"
chrono = "0.4"
chrono-tz = "*"
data-encoding = "2"
dropbox-content-hasher = "*"
dropbox-sdk = "*"
futures = "0.3"
kamadak-exif = "0.5"
mp4 = "*"
parallel_reader = "*"
ring = "*"
rusqlite = "*"
structopt = "0.3"
thiserror = "1"
tokio = { version = "1", features = ["full"] }
