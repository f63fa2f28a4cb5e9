//! Acknowledgement kinds and the record the reliable-send layer keeps for
//! each datagram awaiting an acknowledgement.
use crate::addr::Addr;
use vstd::prelude::*;

verus! {

/// What an `Ack:<kind>` acknowledges; also the kind under which a sent
/// datagram awaits its acknowledgement.
#[derive(Clone, Copy, Debug, PartialEq, Eq, Hash, Structural)]
pub enum AckKind {
    Announce,
    Availability,
    Hello,
    Leader,
    UseStock,
    StockResult,
    Work,
    Order,
    ResultInterface,
    Resilience,
}

impl AckKind {
    /// The kind's name on the wire.
    pub open spec fn name_spec(self) -> Seq<char> {
        match self {
            AckKind::Announce => "Announce"@,
            AckKind::Availability => "Availability"@,
            AckKind::Hello => "Hello"@,
            AckKind::Leader => "Leader"@,
            AckKind::UseStock => "UseStock"@,
            AckKind::StockResult => "StockResult"@,
            AckKind::Work => "Work"@,
            AckKind::Order => "Order"@,
            AckKind::ResultInterface => "Result_Interface"@,
            AckKind::Resilience => "Resilience"@,
        }
    }

    pub fn name(&self) -> (r: &'static str)
        ensures
            r@ == self.name_spec(),
    {
        match self {
            AckKind::Announce => "Announce",
            AckKind::Availability => "Availability",
            AckKind::Hello => "Hello",
            AckKind::Leader => "Leader",
            AckKind::UseStock => "UseStock",
            AckKind::StockResult => "StockResult",
            AckKind::Work => "Work",
            AckKind::Order => "Order",
            AckKind::ResultInterface => "Result_Interface",
            AckKind::Resilience => "Resilience",
        }
    }
}

/// A datagram sent to `addr` that waits for an `Ack:<type_msg>` from there.
pub struct Ack {
    pub addr: Addr,
    pub msg: String,
    pub type_msg: AckKind,
    pub num_tries: usize,
}

impl Ack {
    pub fn new(addr: Addr, msg: String, type_msg: AckKind) -> (r: Ack)
        ensures
            r == (Ack { addr, msg, type_msg, num_tries: 0 }),
    {
        Ack { addr, msg, type_msg, num_tries: 0 }
    }

    pub fn increment_tries(&mut self)
        requires
            old(self).num_tries < usize::MAX,
        ensures
            final(self).num_tries == old(self).num_tries + 1,
            final(self).addr == old(self).addr,
            final(self).msg == old(self).msg,
            final(self).type_msg == old(self).type_msg,
    {
        self.num_tries = self.num_tries + 1;
    }

    pub fn get_num_tries(&self) -> (r: usize)
        ensures
            r == self.num_tries,
    {
        self.num_tries
    }

    pub fn get_msg(&self) -> (r: String)
        ensures
            r == self.msg,
    {
        self.msg.clone()
    }

    pub fn get_addr(&self) -> (r: Addr)
        ensures
            r == self.addr,
    {
        self.addr
    }

    pub fn get_type_msg(&self) -> (r: AckKind)
        ensures
            r == self.type_msg,
    {
        self.type_msg
    }

    /// Whether this record is the one an `Ack:<type_msg>` from `other_addr`
    /// clears.
    pub fn is_equal(&self, other_addr: Addr, other_type_msg: AckKind) -> (r: bool)
        ensures
            r == (self.addr == other_addr && self.type_msg == other_type_msg),
    {
        self.addr == other_addr && self.type_msg == other_type_msg
    }
}

} // verus!
