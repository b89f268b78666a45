[package]
name = "closure_ffi"
version = "0.1.0"
edition = "2021"
publish = false

[dependencies]
iced-x86 = { version = "*", default-features = false, features = ["std", "decoder", "encoder", "instr_info"] }
capstone = { version = "*" }
jit-allocator2 = { version = "*" }
libc = { version = "*" }
