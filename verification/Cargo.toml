[package]
name = "gol"
version = "0.1.0"
edition = "2021"
publish = false

[dependencies]
spin = "0.9"
winapi = { version = "0.3", features = ["impl-default", "std", "dsound", "fileapi", "handleapi", "libloaderapi", "memoryapi", "minwinbase", "minwindef", "mmreg", "mmsystem", "profileapi", "synchapi", "timeapi", "winbase", "windef", "winerror", "wingdi", "winnt", "winuser", "xinput"] }
