[package]
name = "io-streams"
version = "0.1.0"
edition = "2021"
publish = false

[dependencies]
duplex = { version = "=0.16.0", features = ["char-device", "socketpair"] }
os_pipe = "=1.2.3"
socketpair = "=0.19.8"
char-device = "=0.16.5"
system-interface = { version = "=0.27.3", features = ["use_os_pipe", "socketpair", "char-device"] }
io-extras = "=0.18.4"
io-lifetimes = "=2.0.4"
unsafe-io = "=0.11.0"
parking = "=2.2.1"
paste = "=1.0.15"
libc = "=0.2.191"
terminal-io = "=0.19.4"
layered-io = "=0.23.1"

[dev-dependencies]
anyhow = "=1.0.104"
cap-tempfile = "=4.0.3"
