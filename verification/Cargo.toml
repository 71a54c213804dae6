[package]
name = "aigmap"
version = "0.1.0"
edition = "2021"
publish = false

[dependencies]
yosys-netlist-json = "*"
