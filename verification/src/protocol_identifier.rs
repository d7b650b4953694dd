//! Stateless application-protocol classification from well-known ports
//! and leading payload bytes.  A pure function of its inputs: it holds
//! no state and mutates nothing.

use vstd::prelude::*;
use crate::stream_table::ConnKey;

verus! {

/// The application-protocol label attached to a record.
#[derive(Clone, Copy, Debug, PartialEq, Eq, Structural)]
pub enum ProtocolKind {
    Http,
    Https,
    Ssh,
    Dns,
    Smtp,
    Ftp,
    Unknown,
}

/// Leading bytes of an HTTP request or response: `"GET "`, `"POST "` or
/// `"HTTP/"`.
pub open spec fn is_http_prefix(s: Seq<u8>) -> bool {
    ||| (s.len() >= 4 && s[0] == 0x47 && s[1] == 0x45 && s[2] == 0x54 && s[3] == 0x20)
    ||| (s.len() >= 5 && s[0] == 0x50 && s[1] == 0x4f && s[2] == 0x53 && s[3] == 0x54 && s[4]
        == 0x20)
    ||| (s.len() >= 5 && s[0] == 0x48 && s[1] == 0x54 && s[2] == 0x54 && s[3] == 0x50 && s[4]
        == 0x2f)
}

/// Leading bytes of the SSH banner: `"SSH-"`.
pub open spec fn is_ssh_prefix(s: Seq<u8>) -> bool {
    s.len() >= 4 && s[0] == 0x53 && s[1] == 0x53 && s[2] == 0x48 && s[3] == 0x2d
}

/// Leading bytes of a TLS handshake record: content type 22, version 3.x.
pub open spec fn is_tls_prefix(s: Seq<u8>) -> bool {
    s.len() >= 2 && s[0] == 0x16 && s[1] == 0x03
}

/// The protocol a well-known port number stands for.
pub open spec fn port_protocol(p: u16) -> ProtocolKind {
    if p == 80 || p == 8080 {
        ProtocolKind::Http
    } else if p == 443 {
        ProtocolKind::Https
    } else if p == 22 {
        ProtocolKind::Ssh
    } else if p == 53 {
        ProtocolKind::Dns
    } else if p == 25 {
        ProtocolKind::Smtp
    } else if p == 21 {
        ProtocolKind::Ftp
    } else {
        ProtocolKind::Unknown
    }
}

/// The classification rule: a payload signature wins over the ports; the
/// server port is consulted before the client port; anything else is
/// unknown.
pub open spec fn spec_classify(key: ConnKey, sample: Seq<u8>) -> ProtocolKind {
    if is_http_prefix(sample) {
        ProtocolKind::Http
    } else if is_ssh_prefix(sample) {
        ProtocolKind::Ssh
    } else if is_tls_prefix(sample) {
        ProtocolKind::Https
    } else if port_protocol(key.server_port) != ProtocolKind::Unknown {
        port_protocol(key.server_port)
    } else {
        port_protocol(key.client_port)
    }
}

/// Classify one connection from its key and a sample of the leading
/// payload bytes.
pub fn classify(key: ConnKey, sample: &[u8]) -> (r: ProtocolKind)
    ensures
        r == spec_classify(key, sample@),
{
    let n = sample.len();
    if n >= 4 && sample[0] == 0x47 && sample[1] == 0x45 && sample[2] == 0x54 && sample[3] == 0x20 {
        return ProtocolKind::Http;
    }
    if n >= 5 && sample[0] == 0x50 && sample[1] == 0x4f && sample[2] == 0x53 && sample[3] == 0x54
        && sample[4] == 0x20 {
        return ProtocolKind::Http;
    }
    if n >= 5 && sample[0] == 0x48 && sample[1] == 0x54 && sample[2] == 0x54 && sample[3] == 0x50
        && sample[4] == 0x2f {
        return ProtocolKind::Http;
    }
    if n >= 4 && sample[0] == 0x53 && sample[1] == 0x53 && sample[2] == 0x48 && sample[3] == 0x2d {
        return ProtocolKind::Ssh;
    }
    if n >= 2 && sample[0] == 0x16 && sample[1] == 0x03 {
        return ProtocolKind::Https;
    }
    let by_server = port_class(key.server_port);
    match by_server {
        ProtocolKind::Unknown => port_class(key.client_port),
        k => k,
    }
}

/// The well-known-port rule as executable code.
fn port_class(p: u16) -> (r: ProtocolKind)
    ensures
        r == port_protocol(p),
{
    if p == 80 || p == 8080 {
        ProtocolKind::Http
    } else if p == 443 {
        ProtocolKind::Https
    } else if p == 22 {
        ProtocolKind::Ssh
    } else if p == 53 {
        ProtocolKind::Dns
    } else if p == 25 {
        ProtocolKind::Smtp
    } else if p == 21 {
        ProtocolKind::Ftp
    } else {
        ProtocolKind::Unknown
    }
}

} // verus!
