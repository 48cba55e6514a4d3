[package]
name = "lsm_engine"
version = "0.1.0"
edition = "2021"
publish = false

[dependencies]
crc32fast = "1"
fs_extra = "1"
log = "0.4"
std-semaphore = "0.1"
