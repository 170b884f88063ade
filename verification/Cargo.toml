[package]
name = "storyepub"
version = "0.1.0"
edition = "2021"
publish = false

[dependencies]
zip = "*"
sanitize-filename = "*"
anyhow = "*"
futures = "*"
iepub = "*"
reqwest = { version = "*", default-features = false }
wp-mini = "=0.2.0-alpha.3"
