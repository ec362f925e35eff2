[package]
name = "memtrack"
version = "0.1.0"
edition = "2021"
publish = false

[dependencies]
addr2line = "*"
anyhow = "*"
clap = { version = "*", features = ["derive"] }
ctor = "*"
fishhook = "*"
indexmap = "*"
libc = "*"
libunwind = "*"
nix = { version = "*", features = ["fs"] }
process_path = "*"
rangemap = "*"
rustc-demangle = "*"
thiserror = "*"
