[package]
name = "lockstep_sim"
version = "0.1.0"
edition = "2021"
publish = false

[dependencies]
clap = "3"
log = "0.4"
pretty_env_logger = "0.4"
rand = "0.8"
rand_distr = "0.4"
