[package]
name = "gee"
version = "0.1.0"
edition = "2021"
publish = false

[dependencies]
onig = { version = "=6.5.3", default-features = false }
termion = "=4.0.6"
termsize = "=0.1.9"
