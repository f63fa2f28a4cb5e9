//! The payment gateway's decisions.
use crate::addr::{offset_addr, Addr, Datagram, INTERFACE_PORT_BASE};
use crate::chance::random_range;
use crate::log::Logger;
use crate::protocol::{Message, DTO};
use crate::text::{nat_text, push_nat};
use vstd::prelude::*;

verus! {

/// The gateway rejects an order when its draw in `[1, DRAW_LIMIT)` is 1.
pub const DRAW_LIMIT: u64 = 10;

pub struct GatewayPayment {
    logger: Logger,
}

/// The gateway's verdict on an order, given its draw.
pub open spec fn approves(d: DTO, draw: u64) -> bool {
    d.cash_card >= d.total_amount && draw != 1
}

impl GatewayPayment {
    pub fn new() -> (r: GatewayPayment) {
        GatewayPayment { logger: Logger }
    }

    /// The answer to an order, given the gateway's draw: `Payment:<b>,<id>`
    /// to the interface that placed it, `b` being the verdict; nothing when
    /// that interface has no port.
    pub fn decide(&self, dto: &DTO, draw: u64) -> (r: Option<Datagram>)
        ensures
            r is Some <==> offset_addr(INTERFACE_PORT_BASE, dto.id_interface as nat) is Some,
            r matches Some(d) ==> Some(d.to) == offset_addr(INTERFACE_PORT_BASE, dto.id_interface as nat) && d.text@
                == Message::PaymentResult(approves(*dto, draw), dto.id_order).wire(),
    {
        let ok = dto.cash_card >= dto.total_amount && draw != 1;
        match Addr::interface(dto.id_interface) {
            Some(a) => Some(Datagram { to: a, text: Message::PaymentResult(ok, dto.id_order).to_text() }),
            None => None,
        }
    }

    /// Draws for an order and answers it (see `decide`): an order whose
    /// card does not cover its total is always rejected.
    pub fn process_order(&mut self, dto: &DTO) -> (r: Option<Datagram>)
        ensures
            r is Some <==> offset_addr(INTERFACE_PORT_BASE, dto.id_interface as nat) is Some,
            r matches Some(d) ==> Some(d.to) == offset_addr(INTERFACE_PORT_BASE, dto.id_interface as nat) && exists|
                draw: u64,
            |
                1 <= draw < DRAW_LIMIT && d.text@ == Message::PaymentResult(approves(*dto, draw), dto.id_order).wire(),
    {
        let draw = random_range(1, DRAW_LIMIT);
        self.decide(dto, draw)
    }

    /// The gateway's note on an order an interface settles.
    pub fn finish_order(&mut self, id_order: usize, result: bool) -> (r: String)
        ensures
            r@ == "Order "@ + nat_text(id_order as nat) + if result {
                " completed, payment done."@
            } else {
                " rejected, payment not done."@
            },
    {
        let mut s = String::from_str("Order ");
        push_nat(&mut s, id_order as u64);
        if result {
            s.append(" completed, payment done.");
        } else {
            s.append(" rejected, payment not done.");
        }
        s
    }
}

} // verus!
