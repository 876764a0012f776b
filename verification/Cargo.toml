[package]
name = "msca"
version = "0.1.0"
edition = "2021"
publish = false

[dependencies]
bitvec = "1"
xxhash-rust = { version = "0.8", features = ["xxh3", "std"] }
minicbor = { version = "*", features = ["derive", "std"] }
memmap2 = "*"
smol = "2"
serde = { version = "1", features = ["derive"] }
funty = "2"
syn = { version = "2", features = ["full", "parsing", "printing"] }
quote = "1"
proc-macro2 = "1"
