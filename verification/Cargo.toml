[package]
name = "mdlayout"
version = "0.1.0"
edition = "2021"
publish = false

[dependencies]
anyhow = "=1.0.104"
ego-tree = "=0.11.0"
genpdf = "=0.2.0"
html_parser = "=0.7.0"
mdbook = { version = "=0.4.52", default-features = false }
pdf-canvas = "=0.7.0"
pulldown-cmark = "=0.13.4"
scraper = "=0.27.0"
serde = { version = "=1.0.229", features = ["derive"] }
