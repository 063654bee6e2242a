[package]
name = "difftastic"
version = "0.1.0"
edition = "2021"
publish = false

[dependencies]
diff = "0.1"
regex = "1"
