[package]
name = "zapret_rust"
version = "0.2.0"
edition = "2021"
publish = false

[dependencies]
lazy_static = "=1.5.1"
sysinfo = "0.35"
winapi = { version = "=0.3.9", features = ["minwindef", "handleapi", "processthreadsapi", "securitybaseapi", "shellapi", "winnt", "winuser"] }
windows-service = "=0.8.1"
winreg = "0.10"
