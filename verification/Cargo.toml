[package]
name = "garage_sale_gen"
version = "0.1.0"
edition = "2021"
publish = false

[dependencies]
pulldown-cmark = "*"
sha256 = "*"
serde = { version = "1", features = ["derive"] }
serde_yaml = "*"
serde_json = "1"
tera = "1"
tera-text-filters = "*"
yaml-front-matter = "*"
clap = { version = "4", features = ["derive"] }
env_logger = "*"
log = "0.4"
owo-colors = "*"
include_dir = "*"
anyhow = "1"
