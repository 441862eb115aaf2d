[package]
name = "tray_tui"
version = "0.1.0"
edition = "2021"
publish = false

[dependencies]
indexmap = "*"
ratatui = "*"
crossterm = "*"
tokio = { version = "*", features = ["macros", "rt-multi-thread", "sync", "time"] }
system-tray = "*"
clap = { version = "*", features = ["derive"] }
clap_complete = "*"
crokey = "*"
dirs = "*"
log = "*"
simplelog = "*"
serde = { version = "*", features = ["derive"] }
tui-tree-widget = "*"
config = "*"
