//! The probes that the application runs on a target, and what it writes
//! down of their outcomes.

use crate::text::{decimal, push_decimal, push_text};
use vstd::prelude::*;

verus! {

/// One probe of a target.
#[derive(Debug, Clone, Copy, PartialEq, Eq, Structural)]
pub enum Probe {
    /// A reachability probe.
    Ping,
    /// A connection attempt to this TCP port.
    Connect(u16),
}

/// A line to append to one of the result files.
#[derive(Debug, Clone)]
pub struct SinkLine {
    /// The path of the file.
    pub path: String,
    /// The line, without its line ending.
    pub line: String,
}

/// The ports that are probed on every target, in the order of probing.
pub open spec fn probe_ports() -> Seq<u16> {
    seq![13u16, 22u16, 23u16, 80u16, 443u16, 3389u16]
}

/// The address `ip:port` that a connection attempt goes to.
pub open spec fn socket_address_text(ip: Seq<char>, port: u16) -> Seq<char> {
    ip + seq![':'] + decimal(port as nat)
}

/// What the probe handler of the application is set up with: the paths of the
/// two result files.
pub struct AppTaskHandler {
    safe_ping_file: String,
    safe_socket_file: String,
}

impl AppTaskHandler {
    /// The path of the file of targets that answered the reachability probe.
    pub closed spec fn ping_path(&self) -> Seq<char> {
        self.safe_ping_file@
    }

    /// The path of the file of `ip:port` pairs that accepted a connection.
    pub closed spec fn socket_path(&self) -> Seq<char> {
        self.safe_socket_file@
    }

    /// A handler that writes its findings to these two files.
    pub fn new(safe_ping_file: String, safe_socket_file: String) -> (h: AppTaskHandler)
        ensures
            h.ping_path() == safe_ping_file@,
            h.socket_path() == safe_socket_file@,
    {
        AppTaskHandler { safe_ping_file: safe_ping_file, safe_socket_file: safe_socket_file }
    }

    /// The path of the file of targets that answered the reachability probe.
    pub fn safe_ping_file(&self) -> (path: &str)
        ensures
            path@ == self.ping_path(),
    {
        self.safe_ping_file.as_str()
    }

    /// The path of the file of `ip:port` pairs that accepted a connection.
    pub fn safe_socket_file(&self) -> (path: &str)
        ensures
            path@ == self.socket_path(),
    {
        self.safe_socket_file.as_str()
    }

    /// The ports to probe.
    pub fn ports() -> (ports: Vec<u16>)
        ensures
            ports@ == probe_ports(),
    {
        let mut ports: Vec<u16> = Vec::new();
        ports.push(13);
        ports.push(22);
        ports.push(23);
        ports.push(80);
        ports.push(443);
        ports.push(3389);
        proof {
            assert(ports@ =~= probe_ports());
        }
        ports
    }

    /// The address that a connection attempt to `port` of `ip` goes to.
    pub fn socket_address(ip: &str, port: u16) -> (addr: String)
        ensures
            addr@ == socket_address_text(ip@, port),
    {
        let mut addr = String::new();
        push_text(&mut addr, ip);
        addr.push(':');
        push_decimal(&mut addr, port as u64);
        proof {
            assert(addr@ =~= socket_address_text(ip@, port));
        }
        addr
    }

    /// What to write down of a probe of `ip`: a probe that succeeded gets a
    /// line in its file, the target for a reachability probe and `ip:port`
    /// for a connection; one that failed gets none.
    pub fn record(&self, ip: &str, probe: Probe, succeeded: bool) -> (entry: Option<SinkLine>)
        ensures
            entry is Some <==> succeeded,
            entry matches Some(e) ==> match probe {
                Probe::Ping => e.path@ == self.ping_path() && e.line@ == ip@,
                Probe::Connect(port) => e.path@ == self.socket_path() && e.line@
                    == socket_address_text(ip@, port),
            },
    {
        if !succeeded {
            return None;
        }
        match probe {
            Probe::Ping => {
                let mut line = String::new();
                push_text(&mut line, ip);
                proof {
                    assert(line@ =~= ip@);
                }
                Some(SinkLine { path: self.safe_ping_file.clone(), line: line })
            },
            Probe::Connect(port) => Some(
                SinkLine {
                    path: self.safe_socket_file.clone(),
                    line: AppTaskHandler::socket_address(ip, port),
                },
            ),
        }
    }
}

} // verus!
