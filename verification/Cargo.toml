[package]
name = "rc"
version = "0.1.0"
edition = "2021"
publish = false

[dependencies]
crossterm = "0.26"
dirs = "5"
getopts = "0.2"
num-complex = "0.4"
thiserror = "1.0"
