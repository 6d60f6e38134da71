[package]
name = "regex_combinators"
version = "0.1.0"
edition = "2021"
publish = false
