[package]
name = "burritos"
version = "0.1.0"
edition = "2021"
publish = false

[dependencies]
bootloader = { version = "0.9", features = ["map_physical_memory"] }
conquer-once = { version = "*", default-features = false }
crossbeam-queue = { version = "0.3", default-features = false, features = ["alloc"] }
futures-util = { version = "0.3", default-features = false, features = ["alloc"] }
lazy_static = { version = "1", features = ["spin_no_std"] }
linked_list_allocator = "0.10"
pc-keyboard = "0.7"
spin = "0.9"
uart_16550 = "0.2"
volatile = "0.2"
x86_64 = { version = "0.15", default-features = false, features = ["instructions"] }
