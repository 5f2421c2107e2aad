[package]
name = "wordfreq"
version = "0.1.0"
edition = "2021"
publish = false

[dependencies]
anyhow = "*"
getopts = "*"
plotly = "*"
regex = "*"
rust-stemmers = "*"
stop-words = "*"
