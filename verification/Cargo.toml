[package]
name = "egui_i18n"
version = "0.1.0"
edition = "2021"
publish = false

[dependencies]
proc-macro2 = "1"
syn = { version = "2", features = ["full"] }
structopt = "0.3"
color-eyre = "0.6"
once_cell = "1"
log = "0.4"
