[package]
name = "retro_aio"
version = "0.1.0"
edition = "2021"
publish = false

[dependencies]
ab_glyph = "0.2"
image = { version = "0.25", default-features = false, features = ["jpeg", "png"] }
imageproc = { version = "0.25", default-features = false }
rusb = "0.9"
sys-locale = "0.3"
sysinfo = "0.39"
