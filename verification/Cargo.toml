[package]
name = "trusty_trade"
version = "0.1.0"
edition = "2021"
publish = false

[dependencies]
chrono = "*"
csv = "*"
serde = { version = "*", features = ["derive"] }

[dependencies.plotters]
version = "*"
default-features = false
features = ["bitmap_backend", "bitmap_encoder", "ab_glyph", "chrono", "all_series", "all_elements", "full_palette"]
