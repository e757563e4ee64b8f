[package]
name = "lemmate"
version = "0.1.0"
edition = "2021"
publish = false

[dependencies]
ulid = "=1.2.1"
blake3 = "=1.8.7"
mime_guess = "=2.0.5"
serde = { version = "=1.0.229", features = ["derive"] }
serde_json = "=1.0.154"
serde_yaml_ng = "=0.10.0"
markdown = "=1.0.0"
similar = "=2.7.0"
keyring = "=3.6.3"
toml = "=0.8.23"
zip = { version = "=2.6.1", default-features = false, features = ["deflate"] }
sha2 = "=0.10.9"
base64 = "=0.22.1"
url = "=2.5.8"
getrandom = "=0.3.4"
ureq = { version = "=3.5.1", default-features = false }
clap = { version = "=4.6.7", features = ["derive", "env"] }
yrs = "*"
