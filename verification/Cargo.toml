[package]
name = "drorg"
version = "0.1.0"
edition = "2021"
publish = false

[dependencies]
chrono = "0.4"
petgraph = "*"
timeago = "*"
url = "*"
app_dirs = "1"
clap = "2"
diesel = { version = "1", features = ["sqlite", "chrono"] }
failure = "0.1"
google-drive3 = "1"
google-people1 = "1"
humansize = "1"
hyper = "0.10"
hyper-native-tls = "0.3"
serde = { version = "1", features = ["derive"] }
serde_json = "1"
structopt = "0.2"
tempfile = "3"
termcolor = "1"
yup-oauth2 = "1"
