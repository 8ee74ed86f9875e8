[package]
name = "makegen"
version = "2.2.0"
edition = "2021"

[dependencies]
clap = "2"
walkdir = "2"
