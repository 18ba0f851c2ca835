[package]
name = "excel_splitter"
version = "0.1.0"
edition = "2021"
publish = false

[dependencies]
calamine = "0.24"
rust_xlsxwriter = "0.79"
crossbeam-channel = "0.5"
eframe = { version = "0.29", default-features = false, features = ["glow", "x11", "default_fonts"] }
egui = "0.29"
