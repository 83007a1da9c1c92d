[package]
name = "fvm_machine"
version = "0.1.0"
edition = "2021"
publish = false

[dependencies]
anyhow = "=1.0.104"
cid = "=0.11.3"
fvm_ipld_amt = "=0.7.7"
fvm_ipld_blockstore = "=0.3.2"
fvm_ipld_encoding = "=0.5.4"
fvm_shared = "=3.14.2"
log = "0.4"
multihash-codetable = { version = "=0.2.2", features = ["blake2b"] }
rand = "=0.8.8"
