[package]
name = "roomies"
version = "0.1.0"
edition = "2021"
publish = false

[dependencies]
rand = "0.8"
rayon = "1"
calamine = "0.26"
chrono = "0.4"
serde = { version = "1", features = ["derive"] }
serde_json = "1"
printpdf = "0.7"
