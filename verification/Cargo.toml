[package]
name = "review_toolkit"
version = "0.1.0"
edition = "2021"
publish = false

[dependencies]
chrono = "=0.4.45"
tree-sitter = "=0.25.10"
tree-sitter-python = "=0.23.6"
octocrab = "=0.44.1"
reqwest = { version = "=0.12.28", features = ["json"] }
serde = { version = "=1.0.229", features = ["derive"] }
serde_json = "=1.0.154"
thiserror = "=2.0.21"
miette = { version = "=7.6.0", features = ["derive"] }
clap = { version = "=4.6.7", features = ["derive"] }
tokio = { version = "=1.54.1", features = ["full"] }
futures = "=0.3.34"
async-openai = { version = "=0.43.0", features = ["chat-completion"] }
dotenvy = "=0.15.7"
git2 = "=0.20.4"
