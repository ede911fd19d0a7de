[package]
name = "libroast"
version = "0.1.0"
edition = "2021"
publish = false

[dependencies]
bzip2 = "*"
clap = { version = "4", features = ["derive"] }
flate2 = "1"
git2 = { version = "*", default-features = false }
glob = "*"
hifitime = "*"
infer = "*"
rayon = "*"
regex = "*"
tar = "0.4"
tempfile = "*"
terminfo = "*"
tracing = "*"
tracing-subscriber = { version = "*", features = ["env-filter"] }
url = "*"
walkdir = "*"
xz2 = { version = "0.1", features = ["static"] }
zstd = "0.13"
