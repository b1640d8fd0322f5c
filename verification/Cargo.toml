[package]
name = "netmon"
version = "0.1.0"
edition = "2021"
publish = false

[dependencies]
thiserror = "2"
windows-sys = { version = "0.59", features = ["Win32_Foundation", "Win32_NetworkManagement_IpHelper", "Win32_NetworkManagement_Ndis", "Win32_Networking_WinSock", "Win32_System_Diagnostics_ToolHelp", "Win32_System_Threading", "Win32_System_IO"] }
ferrisetw = "1"
