[package]
name = "expr-proc-macros"
version = "0.1.0"
edition = "2021"
publish = false

[dependencies]
proc-macro2 = "1"
quote = "1"
syn = { version = "1", features = ["full", "visit", "visit-mut", "extra-traits"] }
