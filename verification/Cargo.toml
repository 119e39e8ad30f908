[package]
name = "gem"
version = "0.1.0"
edition = "2021"
publish = false

[dependencies]
indexmap = "=2.14.2"
rayon = "=1.12.0"
netlistdb = "=0.3.1"
sverilogparse = "=0.3.3"
arcstr = { version = "=1.2.0", features = ["substr"] }
clilog = "=0.2.3"
ulib = "=0.3.3"
serde = { version = "=1.0.229", features = ["derive"] }
