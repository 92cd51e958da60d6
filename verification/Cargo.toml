[package]
name = "oxipng"
version = "0.1.0"
edition = "2021"
publish = false

[dependencies]
libdeflater = "*"
miniz_oxide = "*"
zopfli = "*"
indexmap = "*"
clap = "4"
parse-size = "*"
env_logger = "*"
log = "*"
glob = "*"
terminal_size = "*"
