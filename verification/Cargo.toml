[package]
name = "clawhdf5"
version = "0.1.0"
edition = "2021"
publish = false

[dependencies]
sha2 = "=0.10.9"
blake3 = "=1.8.7"
k12 = "=0.3.0"
rayon = "=1.12.0"
rusqlite = { version = "=0.41.1", features = ["bundled"] }
clap = { version = "=4.6.7", features = ["derive"] }
half = "2"
mpi = "=0.8.2"
libaec-sys = "=0.1.3"
