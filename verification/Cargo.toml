[package]
name = "spreadsheet"
version = "0.1.0"
edition = "2021"
publish = false

[dependencies]
salsa = "0.23"
