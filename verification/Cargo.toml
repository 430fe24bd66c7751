[package]
name = "kmer_query_engine"
version = "0.1.0"
edition = "2021"
publish = false

[dependencies]
serde_json = "=1.0.151"
needletail = "=0.7.3"
