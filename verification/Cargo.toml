[package]
name = "microgpt"
version = "0.1.0"
edition = "2021"
publish = false

[dependencies]
bevy_ecs = { version = "0.16", default-features = false, features = ["std"] }
blake3 = { version = "1", features = ["pure"] }
bytemuck = { version = "1", features = ["derive"] }
fastrand = "2"
plotters = { version = "0.3", default-features = false, features = ["bitmap_backend", "bitmap_encoder", "all_series", "all_elements"] }
rayon = "1"
reqwest = { version = "0.12", default-features = false, features = ["json"] }
serde = { version = "1", features = ["derive"] }
serde_json = "1"
wasmtime = { version = "36", default-features = false, features = ["runtime", "cranelift", "std", "wat"] }
wgpu = { version = "24", default-features = false, features = ["wgsl"] }
