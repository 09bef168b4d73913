[package]
name = "cshell"
version = "0.1.0"
edition = "2021"
publish = false

[dependencies]
ab_glyph = "*"
async-trait = "*"
bytemuck = { version = "*", features = ["derive"] }
cosmic-text = { version = "*", default-features = false, features = ["std", "swash"] }
crc32fast = "*"
egui = { version = "*", default-features = false }
egui-wgpu = { version = "*", default-features = false }
epaint_default_fonts = "*"
guillotiere = "*"
hmac = "*"
memchr = "*"
regex = "*"
russh = { version = "*", default-features = false, features = ["ring", "rsa"] }
russh-sftp = "*"
serde = { version = "*", features = ["derive"] }
serde_json = "*"
sha1 = "*"
sqlx = { version = "*", default-features = false, features = ["runtime-tokio", "sqlite"] }
thiserror = "*"
tokio = { version = "*", features = ["full"] }
unicode-segmentation = "*"
unicode-width = "*"
uuid = { version = "*", features = ["v7"] }
wgpu = { version = "*", default-features = false, features = ["std", "vulkan", "wgsl"] }

[dev-dependencies]
rand = "*"
