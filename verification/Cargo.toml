[package]
name = "vhost_bounce"
version = "0.1.0"
edition = "2021"
publish = false

[dependencies]
anyhow = "1"
epoll = "4"
libc = "0.2"
log = "0.4"
seccompiler = "0.5"
serde = { version = "1", features = ["derive"] }
serde_json = "1"
thiserror = "2"
vhost = { version = "0.15", features = ["vhost-user-frontend"] }
virtio-bindings = "0.2"
virtio-queue = "0.17"
vm-memory = { version = "0.17", features = ["backend-mmap", "backend-atomic", "backend-bitmap"] }
vmm-sys-util = "0.15"
