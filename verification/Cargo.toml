[package]
name = "mcts"
version = "0.1.0"
edition = "2021"
publish = false

[dependencies]
fastrand = "=2.5.0"
shakmaty = "=0.29.4"
