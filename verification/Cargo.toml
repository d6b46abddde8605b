[package]
name = "redsystem"
version = "0.1.0"
edition = "2021"
publish = false

[dependencies]
petgraph = "=0.8.3"
clap = "=4.6.7"
dialoguer = "=0.12.0"
log = "=0.4.34"
pulldown-cmark = "=0.13.4"
serde = { version = "=1.0.229", features = ["derive"] }
serde_derive = "=1.0.229"
simplelog = "=0.12.2"
symlink = "=0.1.0"
tera = { version = "=2.4.0", features = ["glob_fs"] }
toml = "=1.1.7"
iron = "=0.6.1"
mount = "=0.4.0"
staticfile = "=0.5.0"
