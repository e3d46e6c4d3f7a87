[package]
name = "email_template"
version = "0.1.0"
edition = "2021"
publish = false

[dependencies]
kuchiki = "0.8.1"
scraper = "*"
serde_json = "1"
napi = { version = "2", features = ["serde-json"] }
napi-derive = "2"

[dev-dependencies]
regex = "1"
