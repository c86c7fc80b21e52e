[package]
name = "mdatron"
version = "0.6.0"
edition = "2021"
publish = false

[dependencies]
regex-lite = "*"
sha2 = "*"
serde = { version = "1", features = ["derive"] }
serde_json = "1"
serde_yaml_ng = "*"
glob = "*"
saphyr = "*"
jsonschema = { version = "*", default-features = false }
thiserror = "*"
clap = { version = "4", features = ["derive"] }
libc = "*"
