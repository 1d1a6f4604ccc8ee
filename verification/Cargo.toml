[package]
name = "podcasts_remove_ads"
version = "0.2.0"
edition = "2021"
publish = false

[dependencies]
clap = { version = "4", features = ["derive"] }
colored = "*"
id3 = "*"
notify = "*"
rayon = "1"
rustfft = "6"
serde = { version = "1", features = ["derive"] }
serde_json = "1"
terminal_size = "*"
which = "*"
