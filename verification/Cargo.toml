[package]
name = "pmd_message"
version = "0.1.0"
edition = "2021"
publish = false

[dependencies]
pmd_sir0 = "=1.2.2"
pmd_code_table = "=0.1.0"
