//! The order record every endpoint exchanges, and the text form of each
//! datagram: a tag, a colon, and the tag's payload.
use crate::ack::AckKind;
use crate::ice_cream::{names, UNITS_PER_KG};
use crate::text::{bool_text, digit_char, nat_text, push_bool, push_nat};
use vstd::prelude::*;

verus! {

/// An order as it travels between endpoints. `size_order` is in
/// millionths of a kilogram (see `UNITS_PER_KG`).
pub struct DTO {
    pub id_order: usize,
    pub id_interface: usize,
    pub ice_creams: Vec<String>,
    pub size_order: u64,
    pub cash_card: usize,
    pub total_amount: usize,
}

/// What an order record holds, with its flavour names as character
/// sequences.
pub struct DtoView {
    pub id_order: usize,
    pub id_interface: usize,
    pub ice_creams: Seq<Seq<char>>,
    pub size_order: u64,
    pub cash_card: usize,
    pub total_amount: usize,
}

impl View for DTO {
    type V = DtoView;

    open spec fn view(&self) -> DtoView {
        DtoView {
            id_order: self.id_order,
            id_interface: self.id_interface,
            ice_creams: names(self.ice_creams@),
            size_order: self.size_order,
            cash_card: self.cash_card,
            total_amount: self.total_amount,
        }
    }
}

/// Copies of the strings of `v`, one by one.
pub fn clone_strings(v: &Vec<String>) -> (r: Vec<String>)
    ensures
        names(r@) == names(v@),
{
    let mut r: Vec<String> = Vec::new();
    let n = v.len();
    let mut i: usize = 0;
    while i < n
        invariant
            n == v@.len(),
            i <= n,
            r@.len() == i,
            names(r@) == names(v@.subrange(0, i as int)),
        decreases n - i,
    {
        let c = v[i].clone();
        let ghost r0 = r@;
        r.push(c);
        assert forall|j: int| 0 <= j < i + 1 implies #[trigger] names(r@)[j] == names(v@.subrange(0, i + 1))[j] by {
            if j < i {
                assert(r@[j] == r0[j]);
                assert(names(r0)[j] == names(v@.subrange(0, i as int))[j]);
            }
        }
        assert(names(r@) =~= names(v@.subrange(0, i + 1)));
        i = i + 1;
    }
    assert(v@.subrange(0, n as int) == v@);
    r
}

impl DTO {
    /// A copy of the record.
    pub fn copy(&self) -> (r: DTO)
        ensures
            r@ == self@,
    {
        DTO {
            id_order: self.id_order,
            id_interface: self.id_interface,
            ice_creams: clone_strings(&self.ice_creams),
            size_order: self.size_order,
            cash_card: self.cash_card,
            total_amount: self.total_amount,
        }
    }
}

/// One datagram (or one line over the gateway connection), decoded.
pub enum Message {
    /// `Order:<dto-json>`: an order, to the gateway or to the leader.
    Order(String),
    /// `Work:<dto-json>`: an assignment from the leader to a worker.
    Work(String),
    /// `Payment:<bool>,<order_id>`: the gateway's verdict on an order.
    PaymentResult(bool, usize),
    /// `Payment:<order_id>,<bool>`: an interface settles an order.
    Payment(usize, bool),
    /// `Announce:<id>`: a robot joins the ring.
    Announce(usize),
    /// `Hello:<id>`: a follower greets a joiner.
    Hello(usize),
    /// `Leader:<id>`: the sender leads.
    Leader(usize),
    /// `Election:<id>`: the election token.
    Election(usize),
    /// `Availability`: a worker is ready for its next order.
    Availability,
    /// `UseStock:"<csv>";<amount>`: a worker asks for stock.
    UseStock(Vec<String>, u64),
    /// `StockResult:<bool>`: the leader's stock decision.
    StockResult(bool),
    /// `Robot:<order_id>,<bool>`: a worker's result for an interface.
    Robot(usize, bool),
    /// `Resilience:<order_id>,<bool>`: a result rerouted to a neighbour.
    Resilience(usize, bool),
    /// `Ack:<kind>`.
    Ack(AckKind),
}

/// The flavour names joined by commas.
pub open spec fn join(v: Seq<Seq<char>>) -> Seq<char>
    decreases v.len(),
{
    if v.len() == 0 {
        Seq::empty()
    } else if v.len() == 1 {
        v[0]
    } else {
        join(v.drop_last()) + seq![','] + v.last()
    }
}

/// The last `w` decimal digits of `f`, zero-padded.
pub open spec fn padded(f: nat, w: nat) -> Seq<char>
    decreases w,
{
    if w == 0 {
        Seq::empty()
    } else {
        padded(f / 10, (w - 1) as nat).push(digit_char(f % 10))
    }
}

/// A fraction of `w` digits with its trailing zeros dropped: the digits
/// left and how many there are.
pub open spec fn trimmed(f: nat, w: nat) -> (nat, nat)
    decreases w,
{
    if w > 0 && f % 10 == 0 {
        trimmed(f / 10, (w - 1) as nat)
    } else {
        (f, w)
    }
}

/// A quantity in kilograms, in decimal: the whole part, then, when there is
/// a fractional part, a point and its digits without trailing zeros
/// (`250_000` is `0.25`, `1_000_000` is `1`).
pub open spec fn amount_text(a: nat) -> Seq<char> {
    let whole = nat_text(a / UNITS_PER_KG as nat);
    let frac = a % UNITS_PER_KG as nat;
    if frac == 0 {
        whole
    } else {
        let (f, w) = trimmed(frac, 6);
        whole + seq!['.'] + padded(f, w)
    }
}

impl Message {
    /// The message's text on the wire.
    pub open spec fn wire(self) -> Seq<char> {
        match self {
            Message::Order(b) => "Order:"@ + b@,
            Message::Work(b) => "Work:"@ + b@,
            Message::PaymentResult(r, id) => "Payment:"@ + bool_text(r) + seq![','] + nat_text(id as nat),
            Message::Payment(id, r) => "Payment:"@ + nat_text(id as nat) + seq![','] + bool_text(r),
            Message::Announce(id) => "Announce:"@ + nat_text(id as nat),
            Message::Hello(id) => "Hello:"@ + nat_text(id as nat),
            Message::Leader(id) => "Leader:"@ + nat_text(id as nat),
            Message::Election(id) => "Election:"@ + nat_text(id as nat),
            Message::Availability => "Availability"@,
            Message::UseStock(fl, a) => "UseStock:"@ + seq!['"'] + join(names(fl@)) + seq!['"', ';']
                + amount_text(a as nat),
            Message::StockResult(r) => "StockResult:"@ + bool_text(r),
            Message::Robot(id, r) => "Robot:"@ + nat_text(id as nat) + seq![','] + bool_text(r),
            Message::Resilience(id, r) => "Resilience:"@ + nat_text(id as nat) + seq![','] + bool_text(
                r,
            ),
            Message::Ack(k) => "Ack:"@ + k.name_spec(),
        }
    }

    /// The message's text on the wire.
    pub fn to_text(&self) -> (r: String)
        ensures
            r@ == self.wire(),
    {
        let mut s = String::new();
        match self {
            Message::Order(b) => {
                s.append("Order:");
                s.append(b.as_str());
            },
            Message::Work(b) => {
                s.append("Work:");
                s.append(b.as_str());
            },
            Message::PaymentResult(r, id) => {
                s.append("Payment:");
                push_bool(&mut s, *r);
                s.append(",");
                push_nat(&mut s, *id as u64);
            },
            Message::Payment(id, r) => {
                s.append("Payment:");
                push_nat(&mut s, *id as u64);
                s.append(",");
                push_bool(&mut s, *r);
            },
            Message::Announce(id) => {
                s.append("Announce:");
                push_nat(&mut s, *id as u64);
            },
            Message::Hello(id) => {
                s.append("Hello:");
                push_nat(&mut s, *id as u64);
            },
            Message::Leader(id) => {
                s.append("Leader:");
                push_nat(&mut s, *id as u64);
            },
            Message::Election(id) => {
                s.append("Election:");
                push_nat(&mut s, *id as u64);
            },
            Message::Availability => {
                s.append("Availability");
            },
            Message::UseStock(fl, a) => {
                s.append("UseStock:");
                s.append("\"");
                push_join(&mut s, fl);
                s.append("\";");
                push_amount(&mut s, *a);
            },
            Message::StockResult(r) => {
                s.append("StockResult:");
                push_bool(&mut s, *r);
            },
            Message::Robot(id, r) => {
                s.append("Robot:");
                push_nat(&mut s, *id as u64);
                s.append(",");
                push_bool(&mut s, *r);
            },
            Message::Resilience(id, r) => {
                s.append("Resilience:");
                push_nat(&mut s, *id as u64);
                s.append(",");
                push_bool(&mut s, *r);
            },
            Message::Ack(k) => {
                s.append("Ack:");
                s.append(k.name());
            },
        }
        proof {
            reveal_strlit(",");
            reveal_strlit("\"");
            reveal_strlit("\";");
        }
        assert(s@ =~= self.wire());
        s
    }
}

/// Appends the flavour names joined by commas.
fn push_join(out: &mut String, v: &Vec<String>)
    ensures
        final(out)@ == old(out)@ + join(names(v@)),
{
    proof {
        reveal_strlit(",");
    }
    let n = v.len();
    let mut i: usize = 0;
    while i < n
        invariant
            n == v@.len(),
            i <= n,
            out@ == old(out)@ + join(names(v@).subrange(0, i as int)),
        decreases n - i,
    {
        let ghost prefix = names(v@).subrange(0, i + 1);
        let ghost before = out@;
        assert(prefix.drop_last() =~= names(v@).subrange(0, i as int));
        assert(prefix.last() == v@[i as int]@);
        if i > 0 {
            proof {
                reveal_strlit(",");
            }
            out.append(",");
            out.append(v[i].as_str());
            assert(join(prefix) == join(prefix.drop_last()) + seq![','] + prefix.last());
            assert(out@ =~= before + seq![','] + v@[i as int]@);
        } else {
            assert(prefix =~= seq![v@[0]@]);
            out.append(v[i].as_str());
            assert(join(prefix) == v@[0]@);
            assert(join(names(v@).subrange(0, 0)) == Seq::<char>::empty());
        }
        assert(out@ =~= old(out)@ + join(prefix));
        i = i + 1;
    }
    assert(names(v@).subrange(0, n as int) == names(v@));
}

/// Appends the last `w` digits of `f`, zero-padded.
fn push_padded(out: &mut String, f: u64, w: u64)
    ensures
        final(out)@ == old(out)@ + padded(f as nat, w as nat),
    decreases w,
{
    if w > 0 {
        push_padded(out, f / 10, w - 1);
        push_nat(out, f % 10);
        assert(nat_text((f % 10) as nat) == seq![digit_char((f % 10) as nat)]);
        assert(old(out)@ + padded(f as nat, w as nat) =~= old(out)@ + padded((f / 10) as nat, (w - 1) as nat)
            + seq![digit_char((f % 10) as nat)]);
    } else {
        assert(old(out)@ + padded(f as nat, w as nat) =~= old(out)@);
    }
}

/// Appends a quantity in kilograms, as `amount_text` writes it.
fn push_amount(out: &mut String, a: u64)
    ensures
        final(out)@ == old(out)@ + amount_text(a as nat),
{
    proof {
        reveal_strlit(".");
    }
    push_nat(out, a / UNITS_PER_KG);
    let frac = a % UNITS_PER_KG;
    if frac != 0 {
        let mut f = frac;
        let mut w: u64 = 6;
        while w > 0 && f % 10 == 0
            invariant
                w <= 6,
                trimmed(f as nat, w as nat) == trimmed(frac as nat, 6),
            decreases w,
        {
            f = f / 10;
            w = w - 1;
        }
        out.append(".");
        push_padded(out, f, w);
    }
}

} // verus!
