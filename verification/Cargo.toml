[package]
name = "xmip_contract_toml"
version = "0.1.0"
edition = "2021"
publish = false

[dependencies]
toml = { version = "=0.9.12", features = ["preserve_order"] }
