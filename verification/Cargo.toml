[package]
name = "line_counter"
version = "0.1.0"
edition = "2021"

[dependencies]
rayon = "1"
term_size = "0.3"
