[package]
name = "mimirsbrunn"
version = "0.1.0"
edition = "2021"
publish = false

[dependencies]
address-formatter = "=0.2.2"
serde = { version = "=1.0.229", features = ["derive"] }
serde_json = "=1.0.154"
osmpbfreader = "=0.19.1"
geo = "=0.33.1"
geo-types = "=0.7.20"
rstar = "=0.14.0"
clap = { version = "=4.6.7", features = ["derive"] }
human-sort = "=0.2.2"
transit_model = { version = "=0.56.1", default-features = false }
config = { version = "=0.15.27", default-features = false, features = ["toml"] }
csv = "1"
flate2 = "1"
