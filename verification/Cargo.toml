[package]
name = "pda_parser"
version = "0.1.0"
edition = "2021"
publish = false

[dependencies]
fi-night = "*"
strum_macros = "*"
substring = "*"
