//! An interface's own record of an order.
use crate::ice_cream::{names, share};
use crate::protocol::clone_strings;
use crate::status_order::{advance, StatusOrder};
use vstd::prelude::*;

verus! {

/// An order as an interface keeps it. `amount` is the order's size in
/// millionths of a kilogram.
pub struct Order {
    pub id: usize,
    pub id_client: usize,
    pub products: Vec<String>,
    pub amount: u64,
    pub total_price: usize,
    pub status: StatusOrder,
    pub card_cash: usize,
}

pub struct OrderView {
    pub id: usize,
    pub id_client: usize,
    pub products: Seq<Seq<char>>,
    pub amount: u64,
    pub total_price: usize,
    pub status: StatusOrder,
    pub card_cash: usize,
}

impl View for Order {
    type V = OrderView;

    open spec fn view(&self) -> OrderView {
        OrderView {
            id: self.id,
            id_client: self.id_client,
            products: names(self.products@),
            amount: self.amount,
            total_price: self.total_price,
            status: self.status,
            card_cash: self.card_cash,
        }
    }
}

impl Default for Order {
    fn default() -> (r: Order)
        ensures
            r@ == (OrderView {
                id: 0,
                id_client: 1,
                products: Seq::empty(),
                amount: 0,
                total_price: 0,
                status: StatusOrder::Pending,
                card_cash: 0,
            }),
    {
        let r = Order {
            id: 0,
            id_client: 1,
            products: Vec::new(),
            amount: 0,
            total_price: 0,
            status: StatusOrder::Pending,
            card_cash: 0,
        };
        assert(names(r.products@) =~= Seq::<Seq<char>>::empty());
        r
    }
}

impl Order {
    /// A pending order.
    pub fn new(id: usize, id_client: usize, products: Vec<String>, total_price: usize, amount: u64, card_cash: usize) -> (r: Order)
        ensures
            r@ == (OrderView {
                id,
                id_client,
                products: names(products@),
                amount,
                total_price,
                status: StatusOrder::Pending,
                card_cash,
            }),
    {
        Order { id, id_client, products, amount, total_price, status: StatusOrder::Pending, card_cash }
    }

    pub fn copy(&self) -> (r: Order)
        ensures
            r@ == self@,
    {
        Order {
            id: self.id,
            id_client: self.id_client,
            products: clone_strings(&self.products),
            amount: self.amount,
            total_price: self.total_price,
            status: self.status,
            card_cash: self.card_cash,
        }
    }

    /// Moves a pending order to `status`; a settled order keeps its status.
    pub fn change_status(&mut self, status: StatusOrder)
        ensures
            final(self)@ == (OrderView { status: advance(old(self)@.status, status), ..old(self)@ }),
    {
        if self.status == StatusOrder::Pending {
            self.status = status;
        }
    }

    pub fn get_status(&self) -> (r: StatusOrder)
        ensures
            r == self.status,
    {
        self.status
    }

    /// Each flavour's share of the order.
    pub fn get_total_price(&self) -> (r: u64)
        ensures
            r == share(self.amount as nat, self.products@.len()),
    {
        let n = self.products.len();
        if n == 0 {
            0
        } else {
            self.amount / (n as u64)
        }
    }
}

} // verus!
