[package]
name = "diesel_rocket"
version = "0.1.0"
edition = "2021"
publish = false

[dependencies]
farmhash = "*"
diesel = { version = "*", features = ["postgres", "r2d2"] }
dotenv = "*"
