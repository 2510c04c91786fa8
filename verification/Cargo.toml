[package]
name = "fstsed"
version = "0.1.0"
edition = "2021"
publish = false

[dependencies]
anyhow = "1"
bstr = "1"
camino = "1"
clap = { version = "4", features = ["derive"] }
fst = "0.4"
grep-cli = "*"
memchr = "2"
memmap2 = "*"
microtemplate = "*"
serde_json = "1"
termcolor = "1"
zstd = "*"
