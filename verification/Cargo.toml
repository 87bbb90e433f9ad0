[package]
name = "xmlsql"
version = "0.1.0"
edition = "2021"
publish = false

[dependencies]
xmlparser = "0.13"
uuid = { version = "1", features = ["v4", "v5"] }
speedate = "*"
serde_json = "1"
unic-ucd = "0.9"
rusqlite = "0.29"
tempfile = "3"
memmap2 = "0.9"
crossbeam-channel = "0.5"
thiserror = "1"
selectors = "0.24"
cssparser = "0.29"
