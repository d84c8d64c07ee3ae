[package]
name = "emp_mpc"
version = "0.1.0"
edition = "2021"
publish = false

[dependencies]
sha2 = "0.10"
curve25519-dalek = { version = "4", features = ["rand_core"] }
rand = "0.9"
rand_core = { version = "0.6", features = ["getrandom"] }
rayon = "1"
crossbeam-channel = "0.5"
