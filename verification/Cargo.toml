[package]
name = "coin612"
version = "0.1.0"
edition = "2021"
publish = false

[dependencies]
anyhow = "1"
png = "0.17"
rusb = "0.9"
sdl2 = "0.37"
time = { version = "0.3", features = ["formatting", "parsing", "macros", "local-offset"] }
triple_buffer = "8"
