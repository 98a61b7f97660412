[package]
name = "text_search"
version = "0.1.0"
edition = "2021"
publish = false

[dependencies]
tiny_http = "0.12"
tl = "0.7"
ureq = "2"
