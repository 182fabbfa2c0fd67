//! Daemon configuration: listening ports and their defaults.

use vstd::prelude::*;

verus! {

/// Default port of the local HTTP proxy.
pub const DEFAULT_PROXY_PORT: u16 = 3128;

/// Default UDP port of discovery.
pub const DEFAULT_DISCOVERY_PORT: u16 = 45678;

/// Default TCP port of the local transport.
pub const DEFAULT_TRANSPORT_PORT: u16 = 45679;

/// Ports of the daemon.
#[derive(Debug, Clone, Copy, PartialEq, Eq, Structural)]
pub struct Config {
    /// Proxy listen port.
    pub proxy_port: u16,
    /// Discovery UDP port.
    pub discovery_port: u16,
    /// Local transport TCP port.
    pub transport_port: u16,
}

pub fn default_proxy_port() -> (r: u16)
    ensures
        r == DEFAULT_PROXY_PORT,
{
    DEFAULT_PROXY_PORT
}

pub fn default_discovery_port() -> (r: u16)
    ensures
        r == DEFAULT_DISCOVERY_PORT,
{
    DEFAULT_DISCOVERY_PORT
}

pub fn default_transport_port() -> (r: u16)
    ensures
        r == DEFAULT_TRANSPORT_PORT,
{
    DEFAULT_TRANSPORT_PORT
}

impl Default for Config {
    fn default() -> (r: Config)
        ensures
            r.proxy_port == DEFAULT_PROXY_PORT,
            r.discovery_port == DEFAULT_DISCOVERY_PORT,
            r.transport_port == DEFAULT_TRANSPORT_PORT,
    {
        Config {
            proxy_port: default_proxy_port(),
            discovery_port: default_discovery_port(),
            transport_port: default_transport_port(),
        }
    }
}

impl Config {
    /// The configuration with each given override in place of its field.
    pub fn with_overrides(self, proxy_port: Option<u16>, discovery_port: Option<u16>, transport_port: Option<u16>) -> (r: Config)
        ensures
            r.proxy_port == (match proxy_port {
                Some(p) => p,
                None => self.proxy_port,
            }),
            r.discovery_port == (match discovery_port {
                Some(p) => p,
                None => self.discovery_port,
            }),
            r.transport_port == (match transport_port {
                Some(p) => p,
                None => self.transport_port,
            }),
    {
        Config {
            proxy_port: match proxy_port {
                Some(p) => p,
                None => self.proxy_port,
            },
            discovery_port: match discovery_port {
                Some(p) => p,
                None => self.discovery_port,
            },
            transport_port: match transport_port {
                Some(p) => p,
                None => self.transport_port,
            },
        }
    }
}

} // verus!
