//! The records of an interface's order catalogue.
use crate::ice_cream::names;
use crate::protocol::clone_strings;
use vstd::prelude::*;

verus! {

/// One catalogue entry. `size_order` is in millionths of a kilogram.
pub struct Record {
    pub id: usize,
    pub client_id: usize,
    pub ice_creams: Vec<String>,
    pub size_order: u64,
    pub cash_card: usize,
}

pub struct RecordView {
    pub id: usize,
    pub client_id: usize,
    pub ice_creams: Seq<Seq<char>>,
    pub size_order: u64,
    pub cash_card: usize,
}

impl View for Record {
    type V = RecordView;

    open spec fn view(&self) -> RecordView {
        RecordView {
            id: self.id,
            client_id: self.client_id,
            ice_creams: names(self.ice_creams@),
            size_order: self.size_order,
            cash_card: self.cash_card,
        }
    }
}

/// The views of a sequence of records.
pub open spec fn record_views(s: Seq<Record>) -> Seq<RecordView> {
    s.map_values(|r: Record| r@)
}

impl Record {
    pub fn get_id(&self) -> (r: usize)
        ensures
            r == self.id,
    {
        self.id
    }

    pub fn get_client_id(&self) -> (r: usize)
        ensures
            r == self.client_id,
    {
        self.client_id
    }

    pub fn get_ice_creams(&self) -> (r: Vec<String>)
        ensures
            names(r@) == names(self.ice_creams@),
    {
        clone_strings(&self.ice_creams)
    }

    pub fn get_size_order(&self) -> (r: u64)
        ensures
            r == self.size_order,
    {
        self.size_order
    }

    pub fn get_cash_card(&self) -> (r: usize)
        ensures
            r == self.cash_card,
    {
        self.cash_card
    }

    pub fn copy(&self) -> (r: Record)
        ensures
            r@ == self@,
    {
        Record {
            id: self.id,
            client_id: self.client_id,
            ice_creams: clone_strings(&self.ice_creams),
            size_order: self.size_order,
            cash_card: self.cash_card,
        }
    }
}

/// A whole catalogue.
pub struct RecordList {
    pub orders: Vec<Record>,
}

impl RecordList {
    pub fn get_records(&self) -> (r: Vec<Record>)
        ensures
            record_views(r@) == record_views(self.orders@),
    {
        let mut r: Vec<Record> = Vec::new();
        let n = self.orders.len();
        let mut i: usize = 0;
        while i < n
            invariant
                n == self.orders@.len(),
                i <= n,
                r@.len() == i,
                record_views(r@) == record_views(self.orders@.subrange(0, i as int)),
            decreases n - i,
        {
            let c = self.orders[i].copy();
            let ghost r0 = r@;
            r.push(c);
            assert forall|j: int| 0 <= j < i + 1 implies #[trigger] record_views(r@)[j] == record_views(
                self.orders@.subrange(0, i + 1),
            )[j] by {
                if j < i {
                    assert(r@[j] == r0[j]);
                    assert(record_views(r0)[j] == record_views(self.orders@.subrange(0, i as int))[j]);
                }
            }
            assert(record_views(r@) =~= record_views(self.orders@.subrange(0, i + 1)));
            i = i + 1;
        }
        assert(self.orders@.subrange(0, n as int) == self.orders@);
        r
    }
}

} // verus!
