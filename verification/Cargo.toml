[package]
name = "drfiley"
version = "0.1.0"
edition = "2021"
publish = false

[dependencies]
actix-web = "4"
actix-web-lab = "*"
config = { version = "0.13", default-features = false, features = ["toml"] }
dotenv = "0.15"
futures = "0.3"
parking_lot = "0.12"
prost = "*"
r2d2 = "0.8"
r2d2_sqlite = "*"
rusqlite = "*"
serde = { version = "1", features = ["derive"] }
tokio = { version = "1", features = ["macros", "rt-multi-thread", "sync", "time"] }
tokio-stream = "0.1"
tonic = "*"
xdg = "2"
