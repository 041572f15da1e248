[package]
name = "ray_tracer"
version = "0.1.0"
edition = "2021"
publish = false

[dependencies]
uuid = { version = "1", features = ["v4", "serde"] }
image = { version = "0.24", default-features = false, features = ["jpeg"] }
glam = { version = "*", features = ["serde"] }
rand = { version = "0.8", features = ["small_rng"] }
rand_distr = "0.4"
rayon = "1"
roots = "*"
serde = { version = "1", features = ["derive"] }
serde_json = "1"
actix-web = { version = "4", default-features = false, features = ["macros"] }
reqwest = { version = "0.11", default-features = false, features = ["blocking", "json"] }
futures = "0.3"
crossbeam-channel = "0.5"
log = "0.4"
pretty_env_logger = "*"
tobj = "*"
