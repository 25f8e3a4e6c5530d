[package]
name = "orx_tree"
version = "0.1.0"
edition = "2021"
publish = false

[dependencies]
orx-selfref-col = "*"
orx-pinned-vec = "*"
orx-split-vec = "*"
orx-self-or = "*"
