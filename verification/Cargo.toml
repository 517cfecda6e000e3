[package]
name = "jargonoc"
version = "0.1.0"
edition = "2021"
publish = false

[dependencies]
chic = "1"
clap = "2"
llvm-sys = "*"
