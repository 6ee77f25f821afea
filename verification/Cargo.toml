[package]
name = "slhack"
version = "0.1.0"
edition = "2021"
publish = false

[dependencies]
allegro = "=0.0.51"
allegro_primitives = "=0.0.51"
gl = "=0.14.0"
gltf = { version = "=1.4.1", features = ["extras", "names", "KHR_lights_punctual"] }
nalgebra = "=0.35.0"
serde = { version = "=1.0.229", features = ["derive"] }
serde_json = "=1.0.154"
slr_config = "=0.0.22"
wavefront_obj = "=11.0.0"
