[package]
name = "tag_crucible"
version = "0.1.0"
edition = "2021"
publish = false

[dependencies]
chrono = "=0.4.45"
duckdb = { version = "=1.20000.0", default-features = false }
# Named only to choose how duckdb links: against the library of the system,
# with the bindings that ship with the crate, nothing downloaded or built.
libduckdb-sys = { version = "=1.20000.0", default-features = false, features = ["capi-v1", "pkg-config"] }
log = "=0.4.34"
serde = { version = "=1.0.229", features = ["derive"] }
thiserror = "=2.0.21"
walkdir = "=2.5.0"
