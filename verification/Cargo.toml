[package]
name = "forth_lsp"
version = "0.1.0"
edition = "2021"
publish = false

[dependencies]
forth-lexer = "=0.3.0"
ropey = "=1.6.1"
lsp-types = "=0.97.0"
lsp-server = "=0.7.9"
clap = { version = "=4.6.7", features = ["derive"] }
serde_json = "=1.0.154"

[dev-dependencies]
tempfile = "3"
