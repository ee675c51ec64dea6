[package]
name = "pdf_scanner"
version = "0.1.0"
edition = "2021"
publish = false

[dependencies]
md5 = "0.7"
walkdir = "2"
log = "0.4"
jni = "*"
android_logger = "*"
