[package]
name = "save_slots"
version = "0.1.0"
edition = "2021"
publish = false

[dependencies]
djb2 = "*"
eeprom24x = "*"
w25q = "*"
embedded-hal = "0.2"
