//! An interface: the terminal that places orders, forwards approved ones
//! to the leader and settles them with the gateway once a robot (or a
//! neighbour, on failover) reports the result.
use crate::ack::{Ack, AckKind};
use crate::ack_manager::{clear_oldest, emitted, kept, AckManager, AckRecord};
use crate::addr::{send, sent, Addr, Datagram};
use crate::leader_order_processing::awaiting;
use crate::order::{Order, OrderView};
use crate::protocol::{clone_strings, DtoView, Message, DTO};
use crate::record::{record_views, Record, RecordView};
use crate::status_order::{advance, StatusOrder};
use vstd::prelude::*;

verus! {

/// First retransmission delay of an interface's watched sends.
pub const INTERFACE_ACK_TIMEOUT_MS: u64 = 5000;

/// The price of an order of `amount` millionths of a kilogram: a quarter
/// is 500, a half 850, a kilogram 1500; other sizes keep `price`.
pub open spec fn price_for(amount: u64, price: usize) -> usize {
    if amount == 250_000 {
        500
    } else if amount == 500_000 {
        850
    } else if amount == 1_000_000 {
        1500
    } else {
        price
    }
}

/// The record interface `id` sends for order `o`.
pub open spec fn dto_for(id: usize, o: OrderView) -> DtoView {
    DtoView {
        id_order: o.id,
        id_interface: id,
        ice_creams: o.products,
        size_order: o.amount,
        cash_card: o.card_cash,
        total_amount: price_for(o.amount, o.total_price),
    }
}

/// The pending order a catalogue record describes.
pub open spec fn order_of(r: RecordView) -> OrderView {
    OrderView {
        id: r.id,
        id_client: r.client_id,
        products: r.ice_creams,
        amount: r.size_order,
        total_price: 0,
        status: StatusOrder::Pending,
        card_cash: r.cash_card,
    }
}

/// `o` replaces the order with its id, or joins the list.
pub open spec fn put_order(v: Seq<OrderView>, o: OrderView) -> Seq<OrderView> {
    if exists|i: int| 0 <= i < v.len() && #[trigger] v[i].id == o.id {
        Seq::new(v.len(), |i: int| if v[i].id == o.id { o } else { v[i] })
    } else {
        v.push(o)
    }
}

/// The orders after loading the records `recs` in turn.
pub open spec fn loaded(v: Seq<OrderView>, recs: Seq<RecordView>) -> Seq<OrderView>
    decreases recs.len(),
{
    if recs.len() == 0 {
        v
    } else {
        put_order(loaded(v, recs.drop_last()), order_of(recs.last()))
    }
}

/// The orders once order `id` is settled with `result`.
pub open spec fn settle(v: Seq<OrderView>, id: usize, result: bool) -> Seq<OrderView> {
    Seq::new(
        v.len(),
        |i: int|
            if v[i].id == id {
                OrderView {
                    status: advance(
                        v[i].status,
                        if result {
                            StatusOrder::Completed
                        } else {
                            StatusOrder::Canceled
                        },
                    ),
                    ..v[i]
                }
            } else {
                v[i]
            },
    )
}

/// No two orders share an id.
pub open spec fn unique_ids(v: Seq<OrderView>) -> bool {
    forall|i: int, j: int| 0 <= i < v.len() && 0 <= j < v.len() && i != j ==> #[trigger] v[i].id != #[trigger] v[j].id
}

proof fn lemma_put_unique(v: Seq<OrderView>, o: OrderView)
    requires
        unique_ids(v),
    ensures
        unique_ids(put_order(v, o)),
{
    let r = put_order(v, o);
    if exists|i: int| 0 <= i < v.len() && #[trigger] v[i].id == o.id {
        assert forall|i: int, j: int| 0 <= i < r.len() && 0 <= j < r.len() && i != j implies #[trigger] r[i].id
            != #[trigger] r[j].id by {
            assert(r[i].id == v[i].id && r[j].id == v[j].id);
        }
    } else {
        assert forall|i: int, j: int| 0 <= i < r.len() && 0 <= j < r.len() && i != j implies #[trigger] r[i].id
            != #[trigger] r[j].id by {
            if i < v.len() && j < v.len() {
                assert(r[i] == v[i] && r[j] == v[j]);
            } else if i < v.len() {
                assert(r[i] == v[i]);
            } else {
                assert(r[j] == v[j]);
            }
        }
    }
}

pub open spec fn order_views(s: Seq<Order>) -> Seq<OrderView> {
    s.map_values(|o: Order| o@)
}

pub struct InterfaceView {
    pub id: usize,
    pub file_path: Seq<char>,
    pub orders: Seq<OrderView>,
    pub acks: Seq<AckRecord>,
}

/// An interface's state.
pub struct Interface {
    id: usize,
    file_path: String,
    orders: Vec<Order>,
    ack_manager: AckManager,
}

impl View for Interface {
    type V = InterfaceView;

    closed spec fn view(&self) -> InterfaceView {
        InterfaceView {
            id: self.id,
            file_path: self.file_path@,
            orders: order_views(self.orders@),
            acks: self.ack_manager@,
        }
    }
}

impl Interface {
    pub closed spec fn wf(&self) -> bool {
        &&& self.ack_manager.wf()
        &&& unique_ids(self@.orders)
    }

    /// Interface `id`, whose catalogue is the file `file`; no order yet.
    pub fn new(id: usize, file: String) -> (r: Interface)
        ensures
            r.wf(),
            r@ == (InterfaceView {
                id,
                file_path: file@,
                orders: Seq::empty(),
                acks: Seq::empty(),
            }),
    {
        let r = Interface { id, file_path: file, orders: Vec::new(), ack_manager: AckManager::new() };
        assert(order_views(r.orders@) =~= Seq::<OrderView>::empty());
        assert(unique_ids(r@.orders));
        r
    }

    pub fn get_file_path(&self) -> (r: String)
        ensures
            r@ == self@.file_path,
    {
        self.file_path.clone()
    }

    pub fn get_orders(&self) -> (r: &Vec<Order>)
        ensures
            order_views(r@) == self@.orders,
    {
        &self.orders
    }

    fn put(&mut self, o: Order)
        ensures
            final(self)@ == (InterfaceView { orders: put_order(old(self)@.orders, o@), ..old(self)@ }),
            old(self).wf() ==> final(self).wf(),
    {
        proof {
            if unique_ids(self@.orders) {
                lemma_put_unique(self@.orders, o@);
            }
        }
        let ghost v = self@.orders;
        let n = self.orders.len();
        let mut found = false;
        let mut i: usize = 0;
        while i < n
            invariant
                n == self.orders@.len(),
                n == v.len(),
                i <= n,
                self@.id == old(self)@.id,
                self@.file_path == old(self)@.file_path,
                self@.acks == old(self)@.acks,
                self.ack_manager.wf() == old(self).ack_manager.wf(),
                v == old(self)@.orders,
                found == exists|j: int| 0 <= j < i && #[trigger] v[j].id == o.id,
                forall|j: int| 0 <= j < i ==> #[trigger] self@.orders[j] == if v[j].id == o.id { o@ } else { v[j] },
                forall|j: int| i <= j < n ==> #[trigger] self@.orders[j] == v[j],
            decreases n - i,
        {
            assert(self@.orders[i as int] == v[i as int]);
            assert(self@.orders[i as int] == self.orders@[i as int]@);
            if self.orders[i].id == o.id {
                let c = o.copy();
                let ghost before = self.orders@;
                self.orders.set(i, c);
                found = true;
                assert(v[i as int].id == o.id);
                assert forall|j: int| 0 <= j < n implies #[trigger] self@.orders[j] == if j == i {
                    o@
                } else {
                    order_views(before)[j]
                } by {
                    assert(self@.orders[j] == self.orders@[j]@);
                    assert(order_views(before)[j] == before[j]@);
                }
            } else {
                assert(v[i as int].id != o.id);
            }
            i = i + 1;
        }
        if !found {
            let ghost before = self.orders@;
            assert forall|j: int| 0 <= j < n implies #[trigger] order_views(before)[j] == v[j] by {
                assert(self@.orders[j] == order_views(before)[j]);
                if v[j].id == o.id {
                    assert(exists|k: int| 0 <= k < n && #[trigger] v[k].id == o.id);
                }
            }
            self.orders.push(o);
            assert forall|j: int| 0 <= j < n + 1 implies #[trigger] self@.orders[j] == v.push(o@)[j] by {
                assert(self@.orders[j] == self.orders@[j]@);
                if j < n {
                    assert(order_views(before)[j] == before[j]@);
                    assert(self.orders@[j] == before[j]);
                }
            }
            assert(self@.orders =~= v.push(o@));
        } else {
            assert(self@.orders =~= Seq::new(v.len(), |k: int| if v[k].id == o@.id { o@ } else { v[k] }));
        }
    }

    /// Loads catalogue records: each becomes a pending order at price 0,
    /// replacing an order with the same id.
    pub fn load_orders(&mut self, records: &Vec<Record>)
        requires
            old(self).wf(),
        ensures
            final(self).wf(),
            final(self)@ == (InterfaceView {
                orders: loaded(old(self)@.orders, record_views(records@)),
                ..old(self)@
            }),
    {
        let n = records.len();
        let mut i: usize = 0;
        while i < n
            invariant
                n == records@.len(),
                i <= n,
                self.wf(),
                self@ == (InterfaceView {
                    orders: loaded(old(self)@.orders, record_views(records@.subrange(0, i as int))),
                    ..old(self)@
                }),
            decreases n - i,
        {
            let r = &records[i];
            let o = Order::new(r.id, r.client_id, clone_strings(&r.ice_creams), 0, r.size_order, r.cash_card);
            assert(record_views(records@.subrange(0, i + 1)).drop_last() =~= record_views(records@.subrange(0, i as int)));
            assert(record_views(records@.subrange(0, i + 1)).last() == records@[i as int]@);
            self.put(o);
            i = i + 1;
        }
        assert(records@.subrange(0, n as int) == records@);
    }

    /// The record this interface sends for `order`, priced by its size.
    pub fn create_order(&self, order: &Order) -> (r: DTO)
        ensures
            r@ == dto_for(self@.id, order@),
    {
        let total = if order.amount == 250_000 {
            500
        } else if order.amount == 500_000 {
            850
        } else if order.amount == 1_000_000 {
            1500
        } else {
            order.total_price
        };
        DTO {
            id_order: order.id,
            id_interface: self.id,
            ice_creams: clone_strings(&order.products),
            size_order: order.amount,
            cash_card: order.card_cash,
            total_amount: total,
        }
    }

    /// The record of every loaded order, in order, for the gateway.
    pub fn process_orders(&self) -> (r: Vec<DTO>)
        ensures
            r@.len() == self@.orders.len(),
            forall|i: int| 0 <= i < r@.len() ==> (#[trigger] r@[i])@ == dto_for(self@.id, self@.orders[i]),
    {
        let mut r: Vec<DTO> = Vec::new();
        let n = self.orders.len();
        let mut i: usize = 0;
        while i < n
            invariant
                n == self.orders@.len(),
                i <= n,
                r@.len() == i,
                forall|j: int| 0 <= j < i ==> (#[trigger] r@[j])@ == dto_for(self@.id, self@.orders[j]),
            decreases n - i,
        {
            let d = self.create_order(&self.orders[i]);
            r.push(d);
            i = i + 1;
        }
        r
    }

    /// The gateway's verdict on order `id`: the record to forward to the
    /// leader when it is approved and the order is known.
    pub fn handle_gateway(&self, id: usize, result: bool) -> (r: Option<DTO>)
        requires
            self.wf(),
        ensures
            r is Some <==> result && exists|i: int| 0 <= i < self@.orders.len() && #[trigger] self@.orders[i].id == id,
            r matches Some(d) ==> forall|i: int|
                0 <= i < self@.orders.len() && #[trigger] self@.orders[i].id == id ==> d@ == dto_for(self@.id, self@.orders[i]),
    {
        if !result {
            return None;
        }
        let n = self.orders.len();
        let mut i: usize = 0;
        while i < n
            invariant
                n == self.orders@.len(),
                i <= n,
                result,
                unique_ids(self@.orders),
                forall|j: int| 0 <= j < i ==> (#[trigger] self@.orders[j]).id != id,
            decreases n - i,
        {
            assert(self@.orders[i as int] == self.orders@[i as int]@);
            if self.orders[i].id == id {
                let d = self.create_order(&self.orders[i]);
                assert(self@.orders[i as int].id == id);
                assert(unique_ids(self@.orders));
                return Some(d);
            }
            i = i + 1;
        }
        None
    }

    /// Forwards an approved order (its JSON text) to the leader as
    /// `Order:<dto-json>`, watched.
    pub fn send_order_to_robot(&mut self, body: String, now: u64, out: &mut Vec<Datagram>)
        requires
            old(self).wf(),
        ensures
            final(self).wf(),
            ({
                let text = Message::Order(body).wire();
                let l = Addr { ip: crate::addr::LOOPBACK, port: crate::addr::LEADER_PORT };
                &&& final(self)@ == (InterfaceView {
                    acks: old(self)@.acks.push(awaiting(l, text, AckKind::Order, now, INTERFACE_ACK_TIMEOUT_MS)),
                    ..old(self)@
                })
                &&& sent(final(out)@) == sent(old(out)@).push((l, text))
            }),
    {
        let text = Message::Order(body).to_text();
        let l = Addr::leader();
        send(out, l, text.clone());
        self.ack_manager.add(Ack::new(l, text, AckKind::Order), now, INTERFACE_ACK_TIMEOUT_MS);
    }

    fn settle_order(&mut self, id: usize, result: bool)
        ensures
            final(self)@ == (InterfaceView { orders: settle(old(self)@.orders, id, result), ..old(self)@ }),
            old(self).wf() ==> final(self).wf(),
    {
        let ghost v = self@.orders;
        let status = if result {
            StatusOrder::Completed
        } else {
            StatusOrder::Canceled
        };
        let n = self.orders.len();
        let mut i: usize = 0;
        while i < n
            invariant
                n == self.orders@.len(),
                n == v.len(),
                i <= n,
                v == old(self)@.orders,
                status == if result {
                    StatusOrder::Completed
                } else {
                    StatusOrder::Canceled
                },
                self@.id == old(self)@.id,
                self@.file_path == old(self)@.file_path,
                self@.acks == old(self)@.acks,
                self.ack_manager.wf() == old(self).ack_manager.wf(),
                forall|j: int| 0 <= j < i ==> #[trigger] self@.orders[j] == settle(v, id, result)[j],
                forall|j: int| i <= j < n ==> #[trigger] self@.orders[j] == v[j],
            decreases n - i,
        {
            assert(self@.orders[i as int] == v[i as int]);
            assert(self@.orders[i as int] == self.orders@[i as int]@);
            if self.orders[i].id == id {
                let mut o = self.orders[i].copy();
                assert(v[i as int] == self.orders@[i as int]@);
                assert(o@ == v[i as int]);
                o.change_status(status);
                assert(o@ == (OrderView { status: advance(v[i as int].status, status), ..v[i as int] }));
                assert(v[i as int].id == id);
                let ghost st = if result {
                    StatusOrder::Completed
                } else {
                    StatusOrder::Canceled
                };
                assert(status == st);
                assert(settle(v, id, result)[i as int] == (OrderView { status: advance(v[i as int].status, st), ..v[i as int] }));
                assert(o@ == settle(v, id, result)[i as int]);
                let ghost before = self.orders@;
                self.orders.set(i, o);
                assert forall|j: int| 0 <= j < n implies #[trigger] self@.orders[j] == if j == i {
                    o@
                } else {
                    order_views(before)[j]
                } by {
                    assert(self@.orders[j] == self.orders@[j]@);
                    assert(order_views(before)[j] == before[j]@);
                }
            } else {
                assert(self@.orders[i as int] == settle(v, id, result)[i as int]);
            }
            i = i + 1;
        }
        assert(self@.orders =~= settle(v, id, result));
        assert(unique_ids(v) ==> unique_ids(self@.orders)) by {
            if unique_ids(v) {
                assert forall|a: int, b: int|
                    0 <= a < n && 0 <= b < n && a != b implies #[trigger] self@.orders[a].id != #[trigger] self@.orders[b].id by {
                    assert(self@.orders[a].id == v[a].id && self@.orders[b].id == v[b].id);
                }
            }
        }
    }

    /// A robot's result for order `id`: the order is settled,
    /// `Ack:Result_Interface` goes back to `sender`, and the line to report
    /// to the gateway (`Payment:<id>,<result>`) is returned.
    pub fn handle_robot(&mut self, id: usize, result: bool, sender: Addr, out: &mut Vec<Datagram>) -> (r: String)
        requires
            old(self).wf(),
        ensures
            final(self).wf(),
            final(self)@ == (InterfaceView { orders: settle(old(self)@.orders, id, result), ..old(self)@ }),
            r@ == Message::Payment(id, result).wire(),
            sent(final(out)@) == sent(old(out)@).push((sender, Message::Ack(AckKind::ResultInterface).wire())),
    {
        self.settle_order(id, result);
        send(out, sender, Message::Ack(AckKind::ResultInterface).to_text());
        Message::Payment(id, result).to_text()
    }

    /// A neighbour's failover result for order `id`: as `handle_robot`,
    /// acknowledged with `Ack:Resilience`.
    pub fn handle_resilience(&mut self, id: usize, result: bool, sender: Addr, out: &mut Vec<Datagram>) -> (r: String)
        requires
            old(self).wf(),
        ensures
            final(self).wf(),
            final(self)@ == (InterfaceView { orders: settle(old(self)@.orders, id, result), ..old(self)@ }),
            r@ == Message::Payment(id, result).wire(),
            sent(final(out)@) == sent(old(out)@).push((sender, Message::Ack(AckKind::Resilience).wire())),
    {
        self.settle_order(id, result);
        send(out, sender, Message::Ack(AckKind::Resilience).to_text());
        Message::Payment(id, result).to_text()
    }

    /// `Ack:Order` clears the oldest matching watched send; other kinds are
    /// not an interface's.
    pub fn handle_ack(&mut self, kind: AckKind, sender: Addr)
        requires
            old(self).wf(),
        ensures
            final(self).wf(),
            final(self)@ == if kind == AckKind::Order {
                InterfaceView { acks: clear_oldest(old(self)@.acks, sender, kind), ..old(self)@ }
            } else {
                old(self)@
            },
    {
        if kind == AckKind::Order {
            self.ack_manager.remove(kind, sender);
        }
    }

    /// Retransmits the watched sends due at `now`.
    pub fn tick(&mut self, now: u64, out: &mut Vec<Datagram>)
        requires
            old(self).wf(),
        ensures
            final(self).wf(),
            final(self)@ == (InterfaceView { acks: kept(old(self)@.acks, now), ..old(self)@ }),
            sent(final(out)@) == sent(old(out)@) + emitted(old(self)@.acks, now),
    {
        self.ack_manager.tick(now, out);
    }
}

} // verus!
