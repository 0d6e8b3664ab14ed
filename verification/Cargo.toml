[package]
name = "octobuild"
version = "0.1.0"
edition = "2021"
publish = false

[dependencies]
local-encoding-ng = "*"
shlex = "1"
thiserror = "*"
