[package]
name = "css_inline"
version = "0.1.0"
edition = "2021"
publish = false

[dependencies]
kuchikiki = "=0.8.2"
html5ever = "=0.26.0"
url = "=2.5.8"
rustc-hash = "=2.1.3"
rayon = "=1.12.0"
