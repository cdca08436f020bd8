[package]
name = "chart_axis"
version = "0.1.0"
edition = "2021"

[dependencies]
druid = "0.6"
num-traits = "0.2"
