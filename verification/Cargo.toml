[package]
name = "lyrics"
version = "0.1.0"
edition = "2021"
publish = false

[dependencies]
unicode-width = "=0.2.0"
anyhow = "=1.0.104"
clap = { version = "=4.6.7", features = ["derive"] }
serde = { version = "=1.0.229", features = ["derive"] }
toml = "=0.8.23"
walkdir = "=2.5.0"
lofty = "=0.22.4"
ureq = { version = "=3.5.1", features = ["json"] }
httpdate = "=1.0.3"
ratatui = "=0.29.0"
zip = { version = "=2.6.1", default-features = false, features = ["deflate"] }
image = { version = "=0.25.10", default-features = false, features = ["jpeg", "png"] }
ab_glyph = "=0.2.32"
