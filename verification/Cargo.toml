[package]
name = "sparrow"
version = "0.1.0"
edition = "2021"
publish = false

[dependencies]
anyhow = "=1.0.104"
clap = { version = "=4.6.7", features = ["derive"] }
ctrlc = "=3.5.2"
fern = "=0.7.1"
float-cmp = "=0.10.0"
itertools = "0.14"
jagua-rs = { version = "=0.7.2", features = ["spp", "bpp"] }
jiff = "=0.2.39"
log = "=0.4.35"
num_cpus = "=1.17.0"
ordered-float = "=5.5.1"
rand = "=0.10.3"
rand_distr = "=0.6.0"
rayon = "=1.12.0"
serde = { version = "=1.0.229", features = ["derive"] }
serde_json = "=1.0.154"
slotmap = "=1.1.1"
svg = "=0.18.0"
tap = "=1.0.1"
