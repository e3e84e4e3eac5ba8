//! Connection protocols, the export allow list, and protocol default ports.

use vstd::prelude::*;

use crate::text::{lower_of, lowercase_str, spec_parse_u16, str_eq, parse_u16_str};

verus! {

/// The set of protocol values eligible for export. Tabby currently only
/// supports SSH profiles, so the allow list holds that single value.
pub open spec fn allowed_protocol(s: Seq<char>) -> bool {
    s == "SSH"@
}

/// Runtime membership test for the export allow list.
pub fn is_allowed_protocol(s: &str) -> (r: bool)
    ensures
        r == allowed_protocol(s@),
{
    str_eq(s, "SSH")
}

#[derive(Debug, Clone, PartialEq, Eq)]
pub enum ConnectionProtocols {
    Ssh,
    Rdp,
    Vnc,
    Unknown(String),
}

/// Specification-level image of a `ConnectionProtocols` value.
pub enum ProtocolView {
    Ssh,
    Rdp,
    Vnc,
    Unknown(Seq<char>),
}

impl View for ConnectionProtocols {
    type V = ProtocolView;

    open spec fn view(&self) -> ProtocolView {
        match self {
            ConnectionProtocols::Ssh => ProtocolView::Ssh,
            ConnectionProtocols::Rdp => ProtocolView::Rdp,
            ConnectionProtocols::Vnc => ProtocolView::Vnc,
            ConnectionProtocols::Unknown(s) => ProtocolView::Unknown(s@),
        }
    }
}

/// The protocol denoted by a string, compared without regard to case;
/// unrecognized values are kept, lower-cased.
pub open spec fn spec_protocol_from(s: Seq<char>) -> ProtocolView {
    let l = lower_of(s);
    if l == "ssh"@ {
        ProtocolView::Ssh
    } else if l == "rdp"@ {
        ProtocolView::Rdp
    } else if l == "vnc"@ {
        ProtocolView::Vnc
    } else {
        ProtocolView::Unknown(l)
    }
}

/// The canonical (lower-case) name of a protocol.
pub open spec fn spec_protocol_str(v: ProtocolView) -> Seq<char> {
    match v {
        ProtocolView::Ssh => "ssh"@,
        ProtocolView::Rdp => "rdp"@,
        ProtocolView::Vnc => "vnc"@,
        ProtocolView::Unknown(s) => s,
    }
}

/// The well-known default network port of a protocol; protocols without
/// one default to 0.
pub open spec fn spec_default_port(v: ProtocolView) -> u16 {
    match v {
        ProtocolView::Ssh => 22,
        ProtocolView::Rdp => 3389,
        ProtocolView::Vnc => 5900,
        ProtocolView::Unknown(_) => 0,
    }
}

/// The port of an imported profile: the record's port string when it parses
/// as an unsigned 16-bit integer, and the protocol's default otherwise.
pub open spec fn spec_resolve_port(port: Option<Seq<char>>, v: ProtocolView) -> u16 {
    match port {
        Some(p) => match spec_parse_u16(p) {
            Some(n) => n,
            None => spec_default_port(v),
        },
        None => spec_default_port(v),
    }
}

impl ConnectionProtocols {
    pub fn from_str(s: &str) -> (r: Self)
        ensures
            r@ == spec_protocol_from(s@),
    {
        let low = lowercase_str(s);
        if str_eq(low.as_str(), "ssh") {
            ConnectionProtocols::Ssh
        } else if str_eq(low.as_str(), "rdp") {
            ConnectionProtocols::Rdp
        } else if str_eq(low.as_str(), "vnc") {
            ConnectionProtocols::Vnc
        } else {
            ConnectionProtocols::Unknown(low)
        }
    }

    pub fn as_str(&self) -> (r: &str)
        ensures
            r@ == spec_protocol_str(self@),
    {
        match self {
            ConnectionProtocols::Ssh => "ssh",
            ConnectionProtocols::Rdp => "rdp",
            ConnectionProtocols::Vnc => "vnc",
            ConnectionProtocols::Unknown(s) => s.as_str(),
        }
    }
}

pub fn get_default_port_for_protocol(protocol: &ConnectionProtocols) -> (r: u16)
    ensures
        r == spec_default_port(protocol@),
{
    match protocol {
        ConnectionProtocols::Ssh => 22,
        ConnectionProtocols::Rdp => 3389,
        ConnectionProtocols::Vnc => 5900,
        ConnectionProtocols::Unknown(_) => 0,
    }
}

/// Resolves the port of a record: a present, valid port string wins;
/// otherwise the protocol's default port is used, as if the string were absent.
pub fn resolve_port(port: &Option<String>, protocol: &ConnectionProtocols) -> (r: u16)
    ensures
        r == spec_resolve_port(port.deep_view(), protocol@),
{
    match port {
        Some(p) => match parse_u16_str(p.as_str()) {
            Some(n) => n,
            None => get_default_port_for_protocol(protocol),
        },
        None => get_default_port_for_protocol(protocol),
    }
}

} // verus!
