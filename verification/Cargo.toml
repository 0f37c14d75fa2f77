[package]
name = "seqtool"
version = "0.2.0"
edition = "2021"
publish = false

[dependencies]
bzip2 = "*"
csv = "*"
docopt = "*"
flate2 = "*"
lz4 = "*"
memchr = "*"
meval = "*"
regex = "*"
seq_io = "*"
