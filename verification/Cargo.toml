[package]
name = "vizia_core"
version = "0.1.0"
edition = "2021"
publish = false

[dependencies]
accesskit = "=0.25.1"
copypasta = { version = "=0.10.2", default-features = false }
femtovg = { version = "=0.27.0", default-features = false }
fnv = "=1.0.7"
hashbrown = "=0.17.1"
image = { version = "=0.25.10", default-features = false }
instant = "=0.1.13"
selectors = "=0.41.0"
unic-langid = "=0.9.6"
