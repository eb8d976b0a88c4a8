[package]
name = "jeu_de_la_vie"
version = "0.1.0"
edition = "2021"
publish = false

[dependencies]
rustc-hash = "*"
rand = "=0.9.5"
bevy = { version = "=0.16.1", default-features = false }
