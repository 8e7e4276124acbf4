[package]
name = "mermaid_term"
version = "0.1.0"
edition = "2021"
publish = false

[dependencies]
clap = { version = "4", features = ["derive"] }
crossterm = "0.28"
ratatui = "0.29"
notify = "6"
ansi-to-tui = "7"
