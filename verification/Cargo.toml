[package]
name = "dynafilter"
version = "0.1.0"
edition = "2021"
publish = false

[dependencies]
aho-corasick = "0.7"
serde = { version = "1", features = ["derive"] }
serde_json = "1"
wirefilter-engine = "0.6"
base64 = "0.13"
pcre2 = "0.2"

[dev-dependencies]
nom = "7"
