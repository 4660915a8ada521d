[package]
name = "pomelo"
version = "0.1.0"
edition = "2021"
publish = false

[dependencies]
byteorder = "1"
xorshift = "*"
clocksource = "*"
parking_lot = "*"
plain = "*"
static_assertions = "*"
dynarmic = "*"
