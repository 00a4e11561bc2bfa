[package]
name = "wikinote"
version = "0.1.0"
edition = "2021"
publish = false

[dependencies]
markdown = "*"
yaml-rust = "*"
chrono = "*"
glob = "*"
nvim-oxi = { version = "*", features = ["neovim-0-10"] }
