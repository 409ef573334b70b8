[package]
name = "fast_assets"
version = "0.1.0"
edition = "2021"
publish = false

[dependencies]
curl = "0.4"
json = "0.12"
pollster = "*"
pro_csv = "*"
rayon = "1"
regex = "1"
zip = { version = "0.6", default-features = false, features = ["deflate"] }
