[package]
name = "vimwiki_rename_link"
version = "0.1.0"
edition = "2021"
publish = false

[dependencies]
anyhow = "*"
path-clean = "*"
pathdiff = "*"
