[package]
name = "wikitools"
version = "0.1.0"
edition = "2021"
publish = false

[dependencies]
regex = "=1.13.1"
qp-trie = { version = "=0.8.2", features = ["serde"] }
fst = "=0.3.5"
fst-regex = "=0.3.0"
itertools = "=0.15.0"
quick-xml = "=0.42.0"
bzip2 = "=0.6.1"
bincode = "=1.3.3"
serde = { version = "=1.0.229", features = ["derive"] }
serde_json = "=1.0.154"
rayon = "=1.12.0"
log = "=0.4.34"
env_logger = "=0.11.11"
clap = "=4.6.7"
config = "=0.15.27"
pbr = "=1.1.1"
rocksdb = "=0.25.0"
tantivy = "=0.27.0"
