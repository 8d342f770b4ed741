[package]
name = "minisort"
version = "0.1.0"
edition = "2021"
publish = false

[dependencies]
clap = "*"
ctrlc = "*"
dirs = "*"
flexi_logger = "*"
log = "*"
owo-colors = "*"
