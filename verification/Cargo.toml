[package]
name = "slb"
version = "0.1.0"
edition = "2021"

[dependencies]
bstr = "1"
memchr = "2"
num_cpus = "1"
structopt = "0.3"
