[package]
name = "taxonomy_tree"
version = "0.1.0"
edition = "2021"
publish = false

[dependencies]
anyhow = "1"
crossterm = "*"
csv = "1"
ratatui = "*"
serde = { version = "1", features = ["derive"] }
tui-tree-widget = "*"
