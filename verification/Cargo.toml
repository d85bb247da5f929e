[package]
name = "audio_learn"
version = "0.1.0"
edition = "2021"
publish = false

[dependencies]
audioadapter-buffers = "2.0.0"
cpal = "0.17.3"
crossbeam-channel = "=0.5.17"
ringbuf = "=0.4.8"
rubato = "=1.0.1"
symphonia = { version = "=0.5.5", features = ["all"] }
