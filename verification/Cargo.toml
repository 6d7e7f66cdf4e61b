[package]
name = "pvz_overlay"
version = "0.1.0"
edition = "2021"
publish = false

[dependencies]
winapi = { version = "0.3", features = ["winuser", "memoryapi", "processthreadsapi", "handleapi", "errhandlingapi", "psapi", "winbase", "windef", "wingdi", "libloaderapi", "minwindef", "ntdef", "winnt"] }
