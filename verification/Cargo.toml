[package]
name = "elm_assist"
version = "0.1.0"
edition = "2021"
publish = false

[dependencies]
elm-ast = "*"
toml = "*"
serde = { version = "1", features = ["derive"] }
serde_json = "1"
clap = { version = "4", features = ["derive"] }
crossterm = "*"
ratatui = "*"
tokio = { version = "1", features = ["full"] }
notify = "*"
rayon = "1"
