[package]
name = "iceberg_upsert"
version = "0.1.0"
edition = "2021"
publish = false

[dependencies]
arrow = { version = "=57.3.2", default-features = false, features = ["pyarrow"] }
arrow-arith = "=57.3.2"
arrow-array = "=57.3.2"
arrow-ord = "=57.3.2"
arrow-row = "=57.3.2"
arrow-schema = "=57.3.2"
arrow-select = "=57.3.2"
futures = "=0.3.34"
gcloud-auth = "1"
parquet = { version = "=57.3.2", default-features = false }
pyo3 = { version = "=0.26.0", features = ["abi3-py310"] }
serde_json = "=1.0.154"
token-source = "=1.0.0"
tracing = "=0.1.44"
uuid = { version = "=1.29.0", features = ["v7"] }
