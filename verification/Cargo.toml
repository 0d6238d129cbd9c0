[package]
name = "tracer"
version = "0.1.0"
edition = "2021"
publish = false

[dependencies]
anyhow = "=1.0.104"
csv = "=1.4.0"
env_logger = "=0.11.11"
git2 = { version = "=0.21.0", default-features = false }
home = "=0.5.12"
html2md = "=0.2.17"
html5ever = "=0.25.2"
kuchiki = "=0.8.1"
log = "=0.4.34"
pandoc_ast = "=0.8.6"
petgraph = "=0.5.1"
rusqlite = { version = "=0.41.0", features = ["bundled"] }
serde = { version = "=1.0.229", features = ["derive"] }
serde_json = "=1.0.154"
structopt = "=0.3.26"
tabwriter = "=1.4.1"
thiserror = "=1.0.69"
walkdir = "=2.5.0"
