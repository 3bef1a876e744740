[package]
name = "freightview"
version = "0.1.0"
edition = "2021"
publish = false

[dependencies]
bollard = "*"
clap = "4"
crossterm = "*"
futures-core = "0.3"
futures-util = "0.3"
home = "0.5"
ratatui = "*"
serde = { version = "1", features = ["derive", "rc"] }
serde_json = "1"
tar = "0.4"
tempfile = "3"
thiserror = "*"
tokio = { version = "1", features = ["full"] }
tui-tree-widget = "*"
