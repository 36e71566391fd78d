[package]
name = "fsearch"
version = "0.1.0"
edition = "2021"
publish = false

[dependencies]
anyhow = "=1.0.104"
dirs = "=7.0.0"
globset = "=0.4.21"
grep-regex = "=0.1.14"
grep-searcher = "=0.1.17"
half = "=2.7.1"
image = { version = "=0.25.10", default-features = false, features = ["png", "jpeg", "gif", "webp", "bmp", "ico", "tiff", "qoi"] }
libc = "0.2"
memmap2 = "=0.9.12"
notify = "=8.2.1"
nucleo-matcher = "=0.3.1"
pdf-extract = "=0.12.1"
quick-xml = "=0.41.0"
ratatui = "=0.30.2"
ratatui-image = { version = "=11.1.0", default-features = false, features = ["crossterm"] }
rayon = "1"
regex = "=1.13.1"
resvg = { version = "=0.49.0", default-features = false }
serde = { version = "1", features = ["derive"] }
serde_json = "=1.0.154"
shlex = "1"
syntect = { version = "=5.3.0", default-features = false, features = ["default-fancy"] }
terminal-colorsaurus = "=1.0.3"
toml = "=1.1.8"
two-face = { version = "=0.5.2", default-features = false, features = ["syntect-fancy"] }
zip = { version = "=8.6.0", default-features = false, features = ["deflate"] }
