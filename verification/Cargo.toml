[package]
name = "dayder"
version = "0.1.0"
edition = "2021"
publish = false

[dependencies]
byteorder = "1"
lru_time_cache = "0.11"
memmem = "0.1"
fst = "0.4"
rayon = "1"
iron = "0.6"
mount = "0.4"
staticfile = "0.5"
persistent = "0.4"
url = "1"
lazy_static = "1"
lazysort = "0.2"
hprof = "0.1"
streaming-stats = "0.2"
