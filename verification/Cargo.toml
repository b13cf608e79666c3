[package]
name = "time_2d_inversible_automata"
version = "0.1.0"
edition = "2021"
publish = false

[dependencies]
png = "*"
csv = "1"
serde = { version = "1", features = ["derive"] }
rand = "0.8"
