[package]
name = "doc_cluster"
version = "0.1.0"
edition = "2021"
publish = false

[dependencies]
stop-words = "*"
serde = { version = "*", features = ["derive"] }
serde_json = "*"
flate2 = "*"
rayon = "*"
indicatif = "*"
thiserror = "*"
kuchiki = "*"
