[package]
name = "recu"
version = "0.1.0"
edition = "2021"
publish = false

[dependencies]
chrono = { version = "=0.4.45", features = ["serde"] }
clap = { version = "=4.6.7", features = ["derive", "env"] }
clap_complete = "=4.6.11"
colored = "=3.1.1"
csv = "=1.4.0"
dirs = "=7.0.0"
inquire = { version = "=0.9.4", features = ["date"] }
rusty-money = { version = "=0.5.1", features = ["iso"] }
serde = { version = "=1.0.229", features = ["derive"] }
serde_json = "=1.0.154"
serde_yaml = "=0.9.34"
terminal_size = "=0.4.4"
toml = "=1.1.8"
ureq = { version = "=3.5.1", features = ["json"] }

[dev-dependencies]
tempfile = "=3.27.0"
