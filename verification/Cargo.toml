[package]
name = "jiter"
version = "0.1.0"
edition = "2021"
publish = false

[dependencies]
ahash = "0.8"
bitvec = "1"
bytemuck = "1"
indexmap = "2"
lexical-parse-float = { version = "1", features = ["format"] }
num-bigint = "0.4"
num-traits = "0.2"
serde = { version = "1", features = ["derive"] }
serde_json = "1"
simdutf8 = "0.1"
smallvec = "1"
