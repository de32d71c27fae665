[package]
name = "mygit"
version = "0.1.0"
edition = "2021"
publish = false

[dependencies]
clap = "4"
dirs = "5"
flate2 = "1"
glob = "0.3"
hex = "0.4"
sha1 = "0.10"
similar = "2"
walkdir = "2"
