[package]
name = "codebase_doc"
version = "0.1.0"
edition = "2021"
publish = false

[dependencies]
content_inspector = "*"
ignore = "*"
chrono = "*"
