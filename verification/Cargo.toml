[package]
name = "designity"
version = "0.1.0"
edition = "2021"
publish = false

[dependencies]
anchor-lang = { version = "=0.27.0", features = ["init-if-needed"] }
anchor-spl = { version = "=0.27.0", features = ["metadata"] }
mpl-token-metadata = { version = "=1.10.0", features = ["no-entrypoint"] }
mpl-token-auth-rules = { version = "=1.3.0", features = ["no-entrypoint"] }
solana-program = "=1.14.16"
solana-zk-token-sdk = "=1.14.16"
