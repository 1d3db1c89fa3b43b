[package]
name = "laptop-cooler"
version = "0.1.0"
edition = "2021"
publish = false

[dependencies]
heapless = "=0.8.0"
embedded-storage = "=0.3.2"
embedded-io-async = "=0.7.0"
critical-section = "=1.2.0"
static_cell = "=2.1.1"
embassy-executor = "=0.10.0"
embassy-net = { version = "=0.9.1", features = ["dhcpv4", "medium-ethernet", "proto-ipv4", "tcp", "udp"] }
embassy-sync = "=0.8.0"
embassy-time = "=0.5.1"
edge-dhcp = "=0.8.0"
edge-nal = "=0.7.0"
edge-nal-embassy = "=0.9.0"
esp-alloc = { version = "=0.10.0", features = ["esp32"] }
esp-backtrace = { version = "=0.19.0", features = ["esp32", "panic-handler", "println"] }
esp-bootloader-esp-idf = { version = "=0.5.0", features = ["esp32"] }
esp-hal = { version = "=1.1.2", features = ["esp32", "unstable"] }
esp-println = { version = "=0.17.0", features = ["esp32"] }
esp-radio = { version = "=0.18.0", features = ["esp32", "unstable", "wifi"] }
esp-rtos = { version = "=0.3.0", features = ["embassy", "esp-alloc", "esp-radio", "esp32"] }
esp-storage = { version = "=0.9.0", features = ["esp32"] }
