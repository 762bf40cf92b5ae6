[package]
name = "ipdb"
version = "0.1.0"
edition = "2021"
publish = false

[dependencies]
serde_json = "*"
actix-web = "*"
anyhow = "*"
clap = { version = "*", features = ["derive", "env"] }
clap-verbosity-flag = "*"
indoc = "*"
log = "*"
log4rs = "*"
memmap2 = "*"
once_cell = "*"
serde = { version = "*", features = ["derive"] }
tokio = { version = "*", features = ["macros", "rt-multi-thread"] }
