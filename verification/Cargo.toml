[package]
name = "vault_ordbok"
version = "0.1.0"
edition = "2021"
publish = false

[dependencies]
serde_json = "=1.0.151"
structopt = "=0.3.26"

[dependencies.ureq]
version = "=1.5.5"
features = ["json"]
