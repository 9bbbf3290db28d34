[package]
name = "numeric_order"
version = "0.1.0"
edition = "2021"
