[package]
name = "korrektor"
version = "0.1.0"
edition = "2021"
publish = false

[dependencies]
regex = "1"
fancy-regex = "*"
pcre = "*"
Inflector = "*"
serde = { version = "1", features = ["derive"] }
