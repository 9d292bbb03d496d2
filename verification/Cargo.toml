[package]
name = "qdb"
version = "0.1.0"
edition = "2021"
publish = false

[dependencies]
quicli = "0.4"
sqlparser = "*"
structopt = "0.2"
