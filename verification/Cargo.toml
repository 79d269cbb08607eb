[package]
name = "gitveil"
version = "0.1.0"
edition = "2021"
publish = false

[dependencies]
base64 = "=0.22.1"
bech32 = "=0.11.1"
camino = "=1.2.6"
clap = { version = "=4.6.7", features = ["derive"] }
hex = "=0.4.3"
indexmap = "=2.14.2"
interprocess = "=2.4.7"
rand = "=0.10.3"
rustix = { version = "=1.1.6", features = ["fs"] }
semver = "=1.0.28"
serde = { version = "=1.0.229", features = ["derive"] }
serde_json = { version = "=1.0.154", features = ["arbitrary_precision", "preserve_order", "raw_value"] }
sha2 = "=0.11.1"
similar = "=3.2.1"
tempfile = "=3.27.0"
thiserror = "=2.0.21"
toml = { version = "=1.1.8", features = ["preserve_order"] }
toml_edit = "=0.25.17"
unicode-normalization = "=0.1.26"
wait-timeout = "=0.2.1"
yaml-edit = "=0.3.6"
yaml_serde = "=0.10.7"
zeroize = "=1.9.1"
