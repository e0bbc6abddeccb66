[package]
name = "bvh"
version = "0.1.0"
edition = "2021"
publish = false

[dependencies]
chrono = "*"
derive-new = "*"
fern = { version = "*", features = ["colored"] }
image = "*"
indicatif = "*"
log = "*"
minifb = "*"
nalgebra = "*"
rand = "*"
rayon = "*"
tobj = "*"
