[package]
name = "calendar2pdf"
version = "0.1.0"
edition = "2021"
publish = false

[dependencies]
anyhow = "1"
chrono = "0.4"
clap = { version = "4", features = ["derive"] }
glyph_brush_layout = "0.2"
icalendar = "0.16"
itertools = "0.13"
printpdf = "0.7"
