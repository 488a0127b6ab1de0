[package]
name = "vanta"
version = "0.1.0"
edition = "2021"
publish = false

[dependencies]
fatfs = { version = "=0.3.6", default-features = false, features = ["std", "alloc"] }
heapless = "=0.8.0"
lazy_static = "=1.5.1"
limine = "=0.5.0"
noto-sans-mono-bitmap = "=0.3.2"
pc-keyboard = "=0.9.0"
pic8259 = "=0.11.0"
redox_syscall = { version = "=0.9.5", default-features = false, features = ["std"] }
redoxfs = { version = "=0.9.1", default-features = false, features = ["std"] }
spin = "=0.12.3"
uart_16550 = "=0.3.2"
x86_64 = { version = "=0.15.5", default-features = false, features = ["instructions"] }
