[package]
name = "knight_build"
version = "0.1.0"
edition = "2021"
publish = false

[dependencies]
jobserver = "0.1"
libc = "0.2"
rapidhash = "=4.5.1"
strip-ansi-escapes = "=0.2.1"

[dependencies.ctrlc]
version = "3"
features = ["termination"]

[dependencies.windows-sys]
version = "=0.61.2"
features = [
    "Win32_Foundation",
    "Win32_Security",
    "Win32_Storage_FileSystem",
    "Win32_System_Console",
    "Win32_System_JobObjects",
    "Win32_System_Threading",
]
