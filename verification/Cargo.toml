[package]
name = "pomodoro"
version = "0.1.0"
edition = "2021"
publish = false

[dependencies]
chrono = "*"
clap = "*"
ctrlc = "*"
humantime = "*"
indicatif = "*"
log = "*"
simple-logging = "*"

[dev-dependencies]
serde_json = "*"
