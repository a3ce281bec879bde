[package]
name = "ldapbench"
version = "0.1.0"
edition = "2021"
publish = false

[dependencies]
rand = "*"
uuid = { version = "*", features = ["v4"] }
histogram = "*"
ldap3 = "*"
tokio = { version = "*", features = ["rt-multi-thread", "macros", "sync", "time"] }
async-trait = "*"
clap = { version = "*", features = ["derive"] }
