[package]
name = "tcw3_pal"
version = "0.1.0"
edition = "2021"
publish = false

[dependencies]
log = "=0.4.35"
zerocopy = "=0.3.2"
proc-macro2 = "=1.0.107"
quote = "=1.0.47"
syn = { version = "=1.0.109", features = ["full"] }
rayon = "=1.10.0"
checked = "=0.5.0"
