[package]
name = "git_upstream"
version = "0.1.0"
edition = "2021"
publish = false

[dependencies]
clap = { version = "*", features = ["derive"] }
command-error = "*"
fs-err = "*"
miette = "*"
owo-colors = "*"
serde = { version = "*", features = ["derive"] }
toml = "*"
tracing = "*"
tracing-subscriber = { version = "*", features = ["env-filter"] }
utf8-command = "*"
xdg = "*"
