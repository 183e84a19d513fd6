[package]
name = "hg_store"
version = "0.1.0"
edition = "2021"
publish = false

[dependencies]
bit-vec = "*"
bstr = "*"
indexmap = "*"
percent-encoding = "*"
sha1 = "*"
url = "*"
