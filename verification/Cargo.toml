[package]
name = "irc_index"
version = "0.1.0"
edition = "2021"
publish = false

[dependencies]
error-chain = "=0.12.4"
rocket = "=0.5.2"
rocket_dyn_templates = { version = "=0.2.0", features = ["handlebars"] }
serde = { version = "=1.0.229", features = ["derive"] }
structopt = "=0.3.26"
walkdir = "=2.5.0"

[dev-dependencies]
regex = "=1.13.1"
tantivy = "*"
