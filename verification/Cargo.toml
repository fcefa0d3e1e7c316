[package]
name = "tagscan"
version = "0.1.0"
edition = "2021"
publish = false

[dependencies]
id3 = "*"
metaflac = "*"
rmp = "*"
