//! What the library knows about the operating system it runs on: the platforms it
//! targets, and the decoding of the raw values the operating system hands over.
//!
//! Nothing here calls the operating system. Every function takes the plain numbers and
//! bytes a system call produced, so the decoding, the part that can be wrong, is proved and
//! tested on any machine.

pub mod address;
pub mod connection;
pub mod flow;
pub mod icmp;
pub mod interface;
pub mod process;
pub mod route;

use vstd::prelude::*;

verus! {

/// The host platforms the monitor targets.
#[derive(Debug, Clone, Copy, PartialEq, Eq, Structural, Hash)]
pub enum HostPlatform {
    /// Windows, the first-class target.
    Windows,
    /// Linux.
    Linux,
    /// macOS.
    MacOs,
}

impl HostPlatform {
    /// Stable machine-readable identifier for logs and persisted data.
    ///
    /// Renaming one of these breaks previously written files, so they are a contract
    /// rather than a display label.
    pub fn id(self) -> (s: &'static str)
        ensures
            s@ == match self {
                HostPlatform::Windows => "windows"@,
                HostPlatform::Linux => "linux"@,
                HostPlatform::MacOs => "macos"@,
            },
    {
        match self {
            HostPlatform::Windows => "windows",
            HostPlatform::Linux => "linux",
            HostPlatform::MacOs => "macos",
        }
    }
}

/// Failures raised by the operating-system layer.
#[derive(Debug, Clone, Copy, PartialEq, Eq)]
pub enum Error {
    /// The binary was built for an operating system with no implementation here.
    UnsupportedPlatform,
    /// An operating-system call failed.
    Os {
        /// The call that failed.
        api: &'static str,
        /// The error code it reported.
        code: u32,
    },
    /// An ICMP echo failed on this machine, measuring nothing about the target.
    Icmp {
        /// The `IP_STATUS` or error code reported.
        code: u32,
    },
    /// An IPv6 echo was asked for, which this build cannot send yet.
    Ipv6Unsupported,
    /// This account may not open a tracing session: the normal state of a machine that
    /// has not been set up for it, not a fault.
    TracingNotPermitted,
}

} // verus!
