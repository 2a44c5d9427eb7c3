[package]
name = "clog"
version = "0.1.0"
edition = "2021"
publish = false

[dependencies]
anyhow = "*"
katex = "*"
markdown = "*"
minijinja = "*"
serde_yaml = "*"
time = { version = "*", features = ["formatting"] }
unidecode = "*"
