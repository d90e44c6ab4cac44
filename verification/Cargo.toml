[package]
name = "linky"
version = "0.1.0"
edition = "2021"
publish = false

[dependencies]
bytecount = "0.3"
htmlstream = "0.1"
log = "0.4"
mime = "0.3"
pulldown-cmark = { version = "0.1", default-features = false }
regex = "1"
reqwest = { version = "0.9", default-features = false, features = ["rustls-tls"] }
url = "1.7"
