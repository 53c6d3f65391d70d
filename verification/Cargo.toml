[package]
name = "range_buckets"
version = "0.1.0"
edition = "2021"
publish = false

[dependencies]
interval_tree = "=0.2.0"
