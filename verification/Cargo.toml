[package]
name = "del_msh_core"
version = "0.1.0"
edition = "2021"
publish = false

[dependencies]
anyhow = "=1.0.104"
arrayref = "=0.3.9"
del-geo-core = "=0.1.42"
del-geo-nalgebra = "=0.1.33"
nalgebra = "=0.33.3"
num-traits = "=0.2.19"

[dev-dependencies]
rand = "=0.9.5"
