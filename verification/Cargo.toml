[package]
name = "rope_btree"
version = "0.1.0"
edition = "2021"
publish = false
