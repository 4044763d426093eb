[package]
name = "usvg"
version = "0.1.0"
edition = "2021"
publish = false

[dependencies]
data-url = "*"
flate2 = "*"
png = "*"
jpeg-decoder = "*"
svgfilters = "*"
rgb = "*"
tiny-skia = "*"
