//! Where the bytes of a port flow.
use vstd::prelude::*;

verus! {

/// The configured transport of a port.
#[derive(Debug, Clone)]
pub enum TransportConfig {
    /// A fresh pseudo-terminal.
    Pty,
    /// An existing tty device, such as a USB-serial adapter.
    Tty { path: String },
}

impl Default for TransportConfig {
    fn default() -> (r: TransportConfig)
        ensures
            r == TransportConfig::Pty,
    {
        TransportConfig::Pty
    }
}

} // verus!
