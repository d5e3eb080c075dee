[package]
name = "k_of_n_rss_mpc"
version = "0.1.0"
edition = "2021"
publish = false

[dependencies]
rand = { version = "=0.10.3", features = ["chacha"] }
itertools = "=0.14.0"
