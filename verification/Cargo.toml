[package]
name = "keypad_calc"
version = "0.1.0"
edition = "2021"
publish = false

[dependencies]
heapless = "0.8"
libm = "0.2"
defmt = "*"
defmt-rtt = "*"
embassy-executor = "*"
embassy-rp = "*"
embassy-time = "*"
embedded-graphics = "*"
panic-probe = "*"
ssd1306 = "*"
