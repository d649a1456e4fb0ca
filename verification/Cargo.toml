[package]
name = "remodel"
version = "0.1.0"
edition = "2021"
publish = false

[dependencies]
base64 = "0.13"
rbx_dom_weak = "*"
rbx_xml = "*"
rbx_binary = "*"
rbx_reflection = "*"
rbx_reflection_database = "*"
