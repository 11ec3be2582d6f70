[package]
name = "keychord"
version = "0.1.0"
edition = "2021"
publish = false

[dependencies]
indexmap = "*"
configparser = "*"
log = "*"
simple_logger = "*"
once_cell = "*"
parking_lot = "*"
winreg = "*"
winapi = { version = "*", features = ["winuser", "errhandlingapi", "libloaderapi", "winbase", "winnt", "minwindef", "windef"] }
