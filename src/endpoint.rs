use vstd::prelude::*;

verus! {

/// A concrete remote endpoint: an IP address (IPv4 addresses are held in
/// the low 32 bits) and a port, with the flow information and scope id of an
/// IPv6 address (zero for IPv4).
#[derive(PartialEq, Eq, Structural, Clone, Copy, Debug, Hash)]
pub struct Endpoint {
    pub ip: u128,
    pub port: u16,
    pub is_v6: bool,
    pub flowinfo: u32,
    pub scope_id: u32,
}

impl Endpoint {
    /// An IPv4 endpoint `a.b.c.d:port`.
    pub fn v4(a: u8, b: u8, c: u8, d: u8, port: u16) -> (r: Endpoint)
        ensures
            r.ip == a as int * 0x1000000 + b as int * 0x10000 + c as int * 0x100 + d as int,
            r.port == port,
            !r.is_v6,
            r.flowinfo == 0,
            r.scope_id == 0,
    {
        let ip: u128 = (a as u128) * 0x1000000 + (b as u128) * 0x10000 + (c as u128) * 0x100 + (d as u128);
        Endpoint { ip, port, is_v6: false, flowinfo: 0, scope_id: 0 }
    }

    /// An IPv6 endpoint given by its 128-bit address, port, flow
    /// information and scope id.
    pub fn v6(ip: u128, port: u16, flowinfo: u32, scope_id: u32) -> (r: Endpoint)
        ensures
            r.ip == ip,
            r.port == port,
            r.is_v6,
            r.flowinfo == flowinfo,
            r.scope_id == scope_id,
    {
        Endpoint { ip, port, is_v6: true, flowinfo, scope_id }
    }
}

} // verus!
