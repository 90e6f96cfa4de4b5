[package]
name = "malachite_store"
version = "0.1.0"
edition = "2021"
publish = false

[dependencies]
informalsystems-malachitebft-core-types = "0.1"
informalsystems-malachitebft-proto = "0.1"
redb = "=2.6.4"
thiserror = "=2.0.21"
tokio = { version = "=1.54.1", features = ["rt"] }
