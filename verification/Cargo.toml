[package]
name = "haibun"
version = "0.1.0"
edition = "2021"
publish = false

[dependencies]
chrono = "0.4"
comfy-table = "*"
csv = "1"
dialoguer = "*"
directories = "*"
postgres = { version = "0.19", features = ["with-chrono-0_4"] }
r2d2 = "0.8"
r2d2_postgres = "0.18"
regex = "1"
rust_decimal = { version = "1", features = ["db-postgres"] }
serde = { version = "1", features = ["derive"] }
structopt = "0.3"
toml = "0.5"
