[package]
name = "include_folder"
version = "0.1.0"
edition = "2021"

[dependencies]
heck = "*"
