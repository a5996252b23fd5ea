[package]
name = "muehle"
version = "0.1.0"
edition = "2021"
publish = false

[dependencies]
fnv = "1.0"
smallvec = "1"
once_cell = "1"
smartstring = "1.0"
yansi = "0.5"
