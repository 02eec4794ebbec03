[package]
name = "lamlvm"
version = "0.1.1"
edition = "2021"
publish = false

[dependencies]
embedded-io = "0.6"
snafu = "0.7"
