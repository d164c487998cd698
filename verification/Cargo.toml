[package]
name = "bract"
version = "0.6.0"
edition = "2021"
publish = false

[dependencies]
goblin = "*"
usage-lib = { version = "*", default-features = false }
clap = { version = "4", features = ["derive"] }
ratatui = "0.29"
tui-tree-widget = "0.23"
dirs = "*"
redb = "*"
serde = { version = "1", features = ["derive"] }
serde_json = "1"
