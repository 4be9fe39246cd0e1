[package]
name = "hb_high"
version = "0.1.0"
edition = "2021"
publish = false

[dependencies]
geographiclib-rs = "*"
libm = "0.2"
ndarray = "*"
rand = "*"
rand_core = "*"
rand_distr = "*"
rand_pcg = "*"
rustfft = "*"
thiserror = "2"
