[package]
name = "pole_optimizer"
version = "0.1.0"
edition = "2021"
publish = false

[dependencies]
hashbrown = "=0.17.1"
petgraph = "=0.8.3"
itertools = "=0.15.0"
good_lp = { version = "=1.15.3", default-features = false, features = ["highs"] }
factorio-blueprint = "=0.3.0"
noisy_float = "=0.1.15"
serde = { version = "1", features = ["derive"] }
serde_json = "1"
serde_with = "3"
clap = { version = "4", features = ["derive"] }
once_cell = "1"
log = "0.4"
plotters = { version = "=0.3.7", default-features = false, features = ["bitmap_backend", "bitmap_encoder"] }

[dev-dependencies]
rand = "=0.8.8"
