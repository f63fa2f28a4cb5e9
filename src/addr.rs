use vstd::prelude::*;

verus! {

/// 127.0.0.1, as a big-endian 32-bit value.
pub const LOOPBACK: u32 = 0x7f00_0001;

/// The well-known port bound by whichever robot currently leads.
pub const LEADER_PORT: u16 = 5000;

/// Robot `id` listens on `ROBOT_PORT_BASE + id`.
pub const ROBOT_PORT_BASE: u16 = 6000;

/// Interface `id` listens on `INTERFACE_PORT_BASE + id`.
pub const INTERFACE_PORT_BASE: u16 = 9000;

/// The UDP port the gateway binds to answer interfaces.
pub const GATEWAY_UDP_PORT: u16 = 8081;

/// A transport address: an IPv4 address and a port.
#[derive(Clone, Copy, Debug, PartialEq, Eq, Hash, Structural)]
pub struct Addr {
    pub ip: u32,
    pub port: u16,
}

/// The loopback address with port `base + id`, when that port exists.
pub open spec fn offset_addr(base: u16, id: nat) -> Option<Addr> {
    if base + id <= u16::MAX {
        Some(Addr { ip: LOOPBACK, port: (base + id) as u16 })
    } else {
        None
    }
}

impl Addr {
    pub fn loopback(port: u16) -> (r: Addr)
        ensures
            r == (Addr { ip: LOOPBACK, port }),
    {
        Addr { ip: LOOPBACK, port }
    }

    /// The well-known leader address, 127.0.0.1:5000.
    pub fn leader() -> (r: Addr)
        ensures
            r == (Addr { ip: LOOPBACK, port: LEADER_PORT }),
    {
        Addr { ip: LOOPBACK, port: LEADER_PORT }
    }

    fn offset(base: u16, id: usize) -> (r: Option<Addr>)
        ensures
            r == offset_addr(base, id as nat),
    {
        if id <= (u16::MAX - base) as usize {
            Some(Addr { ip: LOOPBACK, port: base + id as u16 })
        } else {
            None
        }
    }

    /// The address of robot `id`, if its port exists.
    pub fn robot(id: usize) -> (r: Option<Addr>)
        ensures
            r == offset_addr(ROBOT_PORT_BASE, id as nat),
    {
        Addr::offset(ROBOT_PORT_BASE, id)
    }

    /// The address of interface `id`, if its port exists.
    pub fn interface(id: usize) -> (r: Option<Addr>)
        ensures
            r == offset_addr(INTERFACE_PORT_BASE, id as nat),
    {
        Addr::offset(INTERFACE_PORT_BASE, id)
    }
}

} // verus!

verus! {

/// One datagram to send: its destination and its text.
pub struct Datagram {
    pub to: Addr,
    pub text: String,
}

impl View for Datagram {
    type V = (Addr, Seq<char>);

    open spec fn view(&self) -> (Addr, Seq<char>) {
        (self.to, self.text@)
    }
}

/// The view of each datagram of `s`.
pub open spec fn sent(s: Seq<Datagram>) -> Seq<(Addr, Seq<char>)> {
    s.map_values(|d: Datagram| d@)
}

/// Appends a datagram to an outbox.
pub fn send(out: &mut Vec<Datagram>, to: Addr, text: String)
    ensures
        sent(final(out)@) == sent(old(out)@).push((to, text@)),
{
    out.push(Datagram { to, text });
    assert(sent(final(out)@) =~= sent(old(out)@).push((to, text@)));
}

} // verus!
