[package]
name = "oskit"
version = "0.1.0"
edition = "2021"
publish = false

[dependencies]
axallocator = "*"
axerrno = "*"
axfs-ng-vfs = "*"
memory_addr = "*"
xmas-elf = "*"
tg-signal = "=0.4.2-preview.1"
tg-task-manage = "=0.4.2-preview.1"
tg-kernel-context = "=0.4.2-preview.1"
bitflags = "*"
spin = "*"
