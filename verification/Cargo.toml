[package]
name = "ecs"
version = "0.1.0"
edition = "2021"
publish = false

[dependencies]
crossbeam = "=0.8.5"
thiserror = "=1.0.69"
num_cpus = "=1.17.0"
rayon = "1"
