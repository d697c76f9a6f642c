[package]
name = "bump_allocator"
version = "0.1.0"
edition = "2021"
publish = false

[dependencies]
arceos_api = "=0.3.0-preview.3"
axallocator = "=0.2.0"
