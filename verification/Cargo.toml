[package]
name = "oxyon"
version = "0.1.0"
edition = "2021"
publish = false

[dependencies]
lopdf = "0.38"
pulldown-cmark = "*"
html2md = "*"
quick-xml = "*"
zip = { version = "*", default-features = false, features = ["deflate"] }
