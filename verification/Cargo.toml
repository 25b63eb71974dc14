[package]
name = "octree"
version = "0.1.0"
edition = "2021"
publish = false

[dependencies]
rand = "0.8"
rayon = "1"
memoffset = "0.9"
mpi = "*"

[dev-dependencies]
itertools = "*"
