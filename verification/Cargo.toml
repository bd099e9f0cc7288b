[package]
name = "kepub"
version = "0.1.0"
edition = "2021"
publish = false

[dependencies]
html5ever = "=0.39.0"
markup5ever = "=0.39.0"
markup5ever_rcdom = "=0.39.0+unofficial"
quick-xml = "=0.37.5"
zip = { version = "=9.2.2", default-features = false, features = ["deflate"] }
anyhow = "=1.0.104"
clap = { version = "=4.6.7", features = ["derive"] }
indicatif = "=0.18.6"
rayon = "=1.12.0"
walkdir = "=2.5.0"
