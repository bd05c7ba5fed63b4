[package]
name = "route_planner"
version = "0.1.0"
edition = "2021"
publish = false

[dependencies]
factorial = "0.4"
itertools = "0.13"
