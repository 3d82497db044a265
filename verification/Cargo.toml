[package]
name = "turning_grille"
version = "0.1.0"
edition = "2021"
publish = false

[dependencies]
concurrent-queue = "*"
parking_lot = "*"
