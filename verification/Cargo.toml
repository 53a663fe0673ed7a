[package]
name = "mycells"
version = "0.1.0"
edition = "2021"
publish = false

[dependencies]
pulldown-cmark = { version = "0.12", default-features = false, features = ["html"] }
serde = { version = "1", features = ["derive"] }
serde_json = "1"
tera = "1"
git2 = { version = "0.19", default-features = false }
notify = "6"
axum = "0.7"
tokio = { version = "1", features = ["macros", "rt-multi-thread", "net"] }
clap = { version = "4", features = ["derive"] }
anyhow = "1"
rayon = "1"
