[package]
name = "search"
version = "0.2.0"
edition = "2021"
publish = false

[dependencies]
clock_ticks = "*"
image = { version = "*", default-features = false }
png = "*"
