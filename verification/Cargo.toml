[package]
name = "open-amm"
version = "0.1.0"
edition = "2021"
publish = false

[dependencies]
anchor-lang = "0.26.0"
anchor-spl = { version = "0.26.0", features = ["dex"] }
serum_dex = { version = "*", features = ["no-entrypoint"] }
solana-program = "*"
safe-transmute = "0.11"
num-derive = "0.3"
num-traits = "0.2"
