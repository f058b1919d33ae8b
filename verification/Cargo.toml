[package]
name = "dicom_tagger"
version = "0.1.0"
edition = "2021"
publish = false

[dependencies]
anyhow = "=1.0.104"
clap = { version = "=4.6.7", features = ["derive"] }
dicom-core = "=0.10.0"
dicom-dictionary-std = "=0.10.0"
dicom-object = "=0.10.0"
ratatui = "=0.28.1"
tui-textarea = "=0.6.1"
