[package]
name = "euclider"
version = "0.5.0"
edition = "2021"
publish = false

[dependencies]
json = "*"
clap = "*"
glium = "*"
image = { version = "*", default-features = false, features = ["png"] }
meval = "*"
nalgebra = "*"
noise = "*"
num = "*"
num_cpus = "*"
palette = "*"
rand = "*"
scoped_threadpool = "*"
smallvec = "*"
