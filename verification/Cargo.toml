[package]
name = "vue-script"
version = "0.1.0"
edition = "2021"
publish = false

[dependencies]
tagsoup = "*"
glob = "*"
ini_core = "*"
serde = { version = "1", features = ["derive"] }
serde_json = "1"
clap = { version = "4", features = ["cargo"] }
notify = "*"
