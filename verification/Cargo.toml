[package]
name = "shashlik_tiles"
version = "0.1.0"
edition = "2021"
publish = false

[dependencies]
anyhow = "*"
async-trait = "*"
bytemuck = { version = "*", features = ["derive"] }
clap = { version = "4", features = ["derive"] }
contour = "*"
flate2 = "1"
futures = "0.3"
geo = "*"
hashbrown = "*"
indicatif = "*"
log = "0.4"
lyon_tessellation = "1"
memmap2 = "0.9"
prost = "*"
rayon = "1"
reqwest = { version = "*", default-features = false, features = ["rustls-tls"] }
shapefile = { version = "*", features = ["geo-types"] }
thiserror = "2"
tokio = { version = "1", features = ["rt-multi-thread", "macros", "sync", "fs", "io-util"] }
wgpu = "*"
winit = { version = "*", default-features = false, features = ["x11", "rwh_06"] }
xxhash-rust = { version = "0.8", features = ["xxh3"] }
zstd = "0.13"
