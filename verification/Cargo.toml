[package]
name = "nano9"
version = "0.1.0"
edition = "2021"
publish = false

[dependencies]
bevy = { version = "=0.19.1", default-features = false, features = ["std", "bevy_image", "bevy_asset", "bevy_color", "bevy_log"] }
bevy_app = { version = "=0.20.1", default-features = false }
bevy_asset = { version = "=0.20.1", default-features = false }
bevy_ecs = { version = "=0.20.1", default-features = false }
bevy_log = { version = "=0.20.1", default-features = false }
bevy_platform = { version = "=0.20.1", default-features = false }
bevy_mod_scripting_asset = "=0.23.0"
bevy_mod_scripting_bindings = "=0.23.0"
bevy_mod_scripting_bindings_domain = "=0.23.0"
bevy_mod_scripting_core = "=0.23.0"
bevy_mod_scripting_display = "=0.23.0"
bevy_mod_scripting_script = "=0.23.0"
bevy_mod_scripting_world = "=0.23.0"
luars = { version = "=0.26.3", features = ["unsafe-send"] }
png = "=0.18.1"
wgpu-types = "=29.0.4"
