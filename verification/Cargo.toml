[package]
name = "netstack_ip"
version = "0.1.0"
edition = "2021"
publish = false
