[package]
name = "oui_db"
version = "0.1.0"
edition = "2021"
publish = false

[dependencies]
eui48 = "=1.1.0"
smallstr = "=0.3.1"
smallvec = "=1.16.2"
thiserror = "=2.0.21"
lazy_static = "=1.5.1"
