[package]
name = "qtpl"
version = "0.1.0"
edition = "2021"
publish = false

[dependencies]
proc-macro2 = "=1.0.107"
proc-macro-error = "=1.0.4"
quote = "=1.0.47"
syn = { version = "=1.0.109", features = ["full"] }
v_htmlescape = "=0.17.0"

[dev-dependencies]
proc-macro2 = { version = "=1.0.107", features = ["span-locations"] }
