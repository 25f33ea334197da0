[package]
name = "intervals_core"
version = "0.1.0"
edition = "2021"
publish = false

[dependencies]
polars = { version = "=0.55.2", default-features = false, features = ["dtype-i8", "dtype-i16", "dtype-u8", "dtype-u16", "dtype-date", "dtype-datetime"] }
polars-arrow = { version = "=0.55.2", default-features = false }
polars-core = { version = "=0.55.2", default-features = false }
polars-error = "=0.55.2"
polars-ffi = "=0.55.2"
pyo3 = "=0.29.3"
pyo3-polars = { version = "=0.28.0", features = ["derive"] }
serde = { version = "=1.0.229", features = ["derive"] }
