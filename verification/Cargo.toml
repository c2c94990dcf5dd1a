[package]
name = "cpuid_report"
version = "0.1.0"
edition = "2021"
publish = false

[dependencies]
anyhow = "*"
iced-x86 = "*"
memmap = "*"
object = "*"
structopt = "*"
