[package]
name = "nand2tetris"
version = "0.1.0"
edition = "2021"
publish = false

[dependencies]
hashbrown = "=0.14.5"

[dev-dependencies]
nom = "7"
