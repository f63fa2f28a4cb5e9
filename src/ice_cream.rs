//! Flavour stock. Quantities are counted in millionths of a kilogram, so
//! that a quarter kilogram is `250_000` and every deduction is exact.
use vstd::prelude::*;

verus! {

/// Quantity units in one kilogram.
pub const UNITS_PER_KG: u64 = 1_000_000;

/// Stock of each flavour when a leader starts: ten kilograms.
pub const INITIAL_STOCK: u64 = 10_000_000;

/// Each flavour's share of an order of `size` with `n` flavours; nothing
/// when there are none.
pub open spec fn share(size: nat, n: nat) -> nat {
    if n == 0 {
        0
    } else {
        size / n
    }
}

/// One flavour's remaining quantity.
pub struct IceCreamContainer {
    stock: u64,
}

impl View for IceCreamContainer {
    type V = nat;

    closed spec fn view(&self) -> nat {
        self.stock as nat
    }
}

impl IceCreamContainer {
    pub fn new(stock: u64) -> (r: IceCreamContainer)
        ensures
            r@ == stock,
    {
        IceCreamContainer { stock }
    }

    /// Takes `amount` out iff at least that much remains.
    pub fn use_stock(&mut self, amount: u64) -> (r: bool)
        ensures
            r == (old(self)@ >= amount),
            final(self)@ == if r {
                (old(self)@ - amount) as nat
            } else {
                old(self)@
            },
    {
        if self.stock >= amount {
            self.stock = self.stock - amount;
            true
        } else {
            false
        }
    }

    pub fn get_stock(&self) -> (r: u64)
        ensures
            r == self@,
    {
        self.stock
    }
}

/// The names of a sequence of strings.
pub open spec fn names(v: Seq<String>) -> Seq<Seq<char>> {
    v.map_values(|s: String| s@)
}

/// No flavour appears twice.
pub open spec fn unique_names(cells: Seq<(Seq<char>, nat)>) -> bool {
    forall|i: int, j: int|
        0 <= i < cells.len() && 0 <= j < cells.len() && i != j ==> #[trigger] cells[i].0 != #[trigger] cells[j].0
}

/// Whether `name` has a cell.
pub open spec fn has_flavour(cells: Seq<(Seq<char>, nat)>, name: Seq<char>) -> bool {
    exists|i: int| 0 <= i < cells.len() && #[trigger] cells[i].0 == name
}

/// The cell of `name`, which exists.
pub open spec fn cell_of(cells: Seq<(Seq<char>, nat)>, name: Seq<char>) -> int
    recommends
        has_flavour(cells, name),
{
    choose|i: int| 0 <= i < cells.len() && #[trigger] cells[i].0 == name
}

/// Deducting `amount` of one flavour: `None` if its cell holds less; an
/// unknown flavour leaves the table as it is.
pub open spec fn deduct_one(cells: Seq<(Seq<char>, nat)>, name: Seq<char>, amount: nat) -> Option<
    Seq<(Seq<char>, nat)>,
> {
    if has_flavour(cells, name) {
        let i = cell_of(cells, name);
        if cells[i].1 >= amount {
            Some(cells.update(i, (name, (cells[i].1 - amount) as nat)))
        } else {
            None
        }
    } else {
        Some(cells)
    }
}

/// Deducting `amount` of each flavour in turn: `None` as soon as one cannot
/// be served.
pub open spec fn deduct_all(cells: Seq<(Seq<char>, nat)>, flavours: Seq<Seq<char>>, amount: nat) -> Option<
    Seq<(Seq<char>, nat)>,
>
    decreases flavours.len(),
{
    if flavours.len() == 0 {
        Some(cells)
    } else {
        match deduct_all(cells, flavours.drop_last(), amount) {
            Some(c) => deduct_one(c, flavours.last(), amount),
            None => None,
        }
    }
}

/// The stock of every flavour the leader knows.
pub struct StockTable {
    flavours: Vec<String>,
    containers: Vec<IceCreamContainer>,
}

impl View for StockTable {
    type V = Seq<(Seq<char>, nat)>;

    closed spec fn view(&self) -> Seq<(Seq<char>, nat)> {
        Seq::new(self.flavours@.len(), |i: int| (self.flavours@[i]@, self.containers@[i]@))
    }
}

impl StockTable {
    pub closed spec fn wf(&self) -> bool {
        &&& self.flavours@.len() == self.containers@.len()
        &&& unique_names(self@)
    }

    pub fn new() -> (r: StockTable)
        ensures
            r.wf(),
            r@ == Seq::<(Seq<char>, nat)>::empty(),
    {
        let r = StockTable { flavours: Vec::new(), containers: Vec::new() };
        assert(r@ =~= Seq::<(Seq<char>, nat)>::empty());
        r
    }

    /// Ten kilograms of each of the five flavours of the shop.
    pub open spec fn initial_cells() -> Seq<(Seq<char>, nat)> {
        seq![
            ("Chocolate"@, INITIAL_STOCK as nat),
            ("Vainilla"@, INITIAL_STOCK as nat),
            ("Crema Americana"@, INITIAL_STOCK as nat),
            ("Dulce de Leche"@, INITIAL_STOCK as nat),
            ("Frutilla"@, INITIAL_STOCK as nat),
        ]
    }

    /// The table a leader starts with.
    pub fn initial() -> (r: StockTable)
        ensures
            r.wf(),
            r@ == StockTable::initial_cells(),
    {
        proof {
            reveal_strlit("Chocolate");
            reveal_strlit("Vainilla");
            reveal_strlit("Crema Americana");
            reveal_strlit("Dulce de Leche");
            reveal_strlit("Frutilla");
        }
        let ghost q = INITIAL_STOCK as nat;
        let ghost (c, v, ca, d, f) = ("Chocolate"@, "Vainilla"@, "Crema Americana"@, "Dulce de Leche"@, "Frutilla"@);
        assert(c[0] != v[0] && c[1] != ca[1] && c[0] != d[0] && c[0] != f[0]);
        assert(v[0] != ca[0] && v[0] != d[0] && v[0] != f[0]);
        assert(ca[0] != d[0] && ca[0] != f[0] && d[0] != f[0]);
        let mut r = StockTable::new();
        r.add_flavour(String::from_str("Chocolate"), INITIAL_STOCK);
        assert(r@ =~= seq![(c, q)]);
        r.add_flavour(String::from_str("Vainilla"), INITIAL_STOCK);
        assert(r@ =~= seq![(c, q), (v, q)]);
        r.add_flavour(String::from_str("Crema Americana"), INITIAL_STOCK);
        assert(r@ =~= seq![(c, q), (v, q), (ca, q)]);
        r.add_flavour(String::from_str("Dulce de Leche"), INITIAL_STOCK);
        assert(r@ =~= seq![(c, q), (v, q), (ca, q), (d, q)]);
        r.add_flavour(String::from_str("Frutilla"), INITIAL_STOCK);
        assert(r@ =~= seq![(c, q), (v, q), (ca, q), (d, q), (f, q)]);
        r
    }

    fn find(&self, name: &String) -> (r: Option<usize>)
        requires
            self.wf(),
        ensures
            r is None ==> !has_flavour(self@, name@),
            r matches Some(i) ==> i < self@.len() && self@[i as int].0 == name@,
    {
        let n = self.flavours.len();
        let mut i: usize = 0;
        while i < n
            invariant
                n == self@.len(),
                self.wf(),
                i <= n,
                forall|j: int| 0 <= j < i ==> self@[j].0 != name@,
            decreases n - i,
        {
            if self.flavours[i] == *name {
                return Some(i);
            }
            i = i + 1;
        }
        None
    }

    /// Adds a flavour with `stock`, unless it already has a cell.
    pub fn add_flavour(&mut self, name: String, stock: u64)
        requires
            old(self).wf(),
        ensures
            final(self).wf(),
            final(self)@ == if has_flavour(old(self)@, name@) {
                old(self)@
            } else {
                old(self)@.push((name@, stock as nat))
            },
    {
        if self.find(&name).is_none() {
            self.flavours.push(name);
            self.containers.push(IceCreamContainer::new(stock));
            assert(self@ =~= old(self)@.push((name@, stock as nat)));
        }
    }

    /// The remaining quantity of `name`, if it has a cell.
    pub fn stock_of(&self, name: &String) -> (r: Option<u64>)
        requires
            self.wf(),
        ensures
            r is None <==> !has_flavour(self@, name@),
            r matches Some(q) ==> q == self@[cell_of(self@, name@)].1,
    {
        match self.find(name) {
            Some(i) => Some(self.containers[i].get_stock()),
            None => None,
        }
    }

    /// Deducts `amount` of each of `flavours`, all or nothing: the table
    /// changes only when every deduction can be made. Flavours without a
    /// cell are skipped. Returns whether the deductions were made.
    pub fn use_stock(&mut self, flavours: &Vec<String>, amount: u64) -> (r: bool)
        requires
            old(self).wf(),
        ensures
            final(self).wf(),
            r == deduct_all(old(self)@, names(flavours@), amount as nat) is Some,
            final(self)@ == match deduct_all(old(self)@, names(flavours@), amount as nat) {
                Some(c) => c,
                None => old(self)@,
            },
    {
        let n = self.containers.len();
        let mut trial: Vec<u64> = Vec::new();
        let mut k: usize = 0;
        while k < n
            invariant
                n == self@.len(),
                self.wf(),
                k <= n,
                trial@.len() == k,
                forall|j: int| 0 <= j < k ==> trial@[j] == self@[j].1,
            decreases n - k,
        {
            trial.push(self.containers[k].get_stock());
            k = k + 1;
        }
        let ghost fl = names(flavours@);
        let ghost cells = self@;
        let m = flavours.len();
        let mut i: usize = 0;
        while i < m
            invariant
                self.wf(),
                self@ == cells,
                m == fl.len(),
                fl == names(flavours@),
                trial@.len() == n,
                n == cells.len(),
                i <= m,
                deduct_all(cells, fl.subrange(0, i as int), amount as nat) == Some(
                    Seq::new(n as nat, |j: int| (cells[j].0, trial@[j] as nat)),
                ),
            decreases m - i,
        {
            let ghost before = Seq::new(n as nat, |j: int| (cells[j].0, trial@[j] as nat));
            assert(fl.subrange(0, i + 1).drop_last() == fl.subrange(0, i as int));
            assert(fl.subrange(0, i + 1).last() == flavours@[i as int]@);
            assert(unique_names(before)) by {
                assert forall|a: int, b: int|
                    0 <= a < before.len() && 0 <= b < before.len() && a != b implies #[trigger] before[a].0
                    != #[trigger] before[b].0 by {
                    assert(cells[a].0 != cells[b].0);
                }
            }
            match self.find(&flavours[i]) {
                Some(idx) => {
                    let ghost name = flavours@[i as int]@;
                    assert(before[idx as int].0 == name);
                    assert(has_flavour(before, name));
                    assert(cell_of(before, name) == idx) by {
                        let c = cell_of(before, name);
                        assert(before[c].0 == name);
                    }
                    if trial[idx] < amount {
                        assert(deduct_one(before, name, amount as nat) is None);
                        assert(deduct_all(cells, fl.subrange(0, i + 1), amount as nat) is None);
                        assert(deduct_all(cells, fl, amount as nat) is None) by {
                            lemma_failure_sticks(cells, fl, i + 1, amount as nat);
                        }
                        return false;
                    }
                    let q = trial[idx] - amount;
                    trial.set(idx, q);
                    assert(Seq::new(n as nat, |j: int| (cells[j].0, trial@[j] as nat)) =~= before.update(
                        idx as int,
                        (flavours@[i as int]@, q as nat),
                    ));
                },
                None => {
                    assert(!has_flavour(before, flavours@[i as int]@));
                },
            }
            i = i + 1;
        }
        assert(fl.subrange(0, m as int) == fl);
        let mut j: usize = 0;
        while j < n
            invariant
                n == self.containers@.len(),
                self.flavours@ == old(self).flavours@,
                self.flavours@.len() == n,
                trial@.len() == n,
                j <= n,
                forall|a: int| 0 <= a < j ==> self.containers@[a]@ == trial@[a],
                forall|a: int| j <= a < n ==> self.containers@[a]@ == old(self).containers@[a]@,
            decreases n - j,
        {
            self.containers.set(j, IceCreamContainer::new(trial[j]));
            j = j + 1;
        }
        assert(self@ =~= Seq::new(n as nat, |a: int| (cells[a].0, trial@[a] as nat)));
        true
    }
}

/// Once a prefix of the flavours cannot be served, neither can the whole.
proof fn lemma_failure_sticks(cells: Seq<(Seq<char>, nat)>, fl: Seq<Seq<char>>, i: int, amount: nat)
    requires
        0 <= i <= fl.len(),
        deduct_all(cells, fl.subrange(0, i), amount) is None,
    ensures
        deduct_all(cells, fl, amount) is None,
    decreases fl.len() - i,
{
    if i < fl.len() {
        assert(fl.subrange(0, i + 1).drop_last() == fl.subrange(0, i));
        lemma_failure_sticks(cells, fl, i + 1, amount);
    } else {
        assert(fl.subrange(0, i) == fl);
    }
}

/// How many times `name` occurs in `fl`.
pub open spec fn count_of(fl: Seq<Seq<char>>, name: Seq<char>) -> nat
    decreases fl.len(),
{
    if fl.len() == 0 {
        0
    } else {
        count_of(fl.drop_last(), name) + if fl.last() == name {
            1nat
        } else {
            0nat
        }
    }
}

/// Stock is never overdrawn: when the deductions for `fl` succeed, every
/// cell loses exactly `amount` for each request of its flavour, so it held
/// at least that much; when they fail, nothing changes (see `use_stock`).
pub proof fn lemma_stock_never_overdrawn(cells: Seq<(Seq<char>, nat)>, fl: Seq<Seq<char>>, amount: nat)
    requires
        unique_names(cells),
        deduct_all(cells, fl, amount) is Some,
    ensures
        ({
            let c2 = deduct_all(cells, fl, amount).unwrap();
            &&& c2.len() == cells.len()
            &&& forall|i: int|
                0 <= i < cells.len() ==> (#[trigger] c2[i]).0 == cells[i].0 && c2[i].1 + amount * count_of(
                    fl,
                    cells[i].0,
                ) == cells[i].1
        }),
    decreases fl.len(),
{
    if fl.len() == 0 {
        let c2 = deduct_all(cells, fl, amount).unwrap();
        assert forall|i: int| 0 <= i < cells.len() implies (#[trigger] c2[i]).0 == cells[i].0 && c2[i].1 + amount
            * count_of(fl, cells[i].0) == cells[i].1 by {
            assert(count_of(fl, cells[i].0) == 0);
            assert(amount * 0 == 0) by (nonlinear_arith);
        }
    } else {
        let d = fl.drop_last();
        let name = fl.last();
        assert(deduct_all(cells, d, amount) is Some);
        lemma_stock_never_overdrawn(cells, d, amount);
        let c1 = deduct_all(cells, d, amount).unwrap();
        let c2 = deduct_all(cells, fl, amount).unwrap();
        assert(c2 == deduct_one(c1, name, amount).unwrap());
        assert(unique_names(c1)) by {
            assert forall|i: int, j: int|
                0 <= i < c1.len() && 0 <= j < c1.len() && i != j implies #[trigger] c1[i].0 != #[trigger] c1[j].0 by {
                assert(c1[i].0 == cells[i].0 && c1[j].0 == cells[j].0);
            }
        }
        if has_flavour(c1, name) {
            let k = cell_of(c1, name);
            assert forall|i: int| 0 <= i < cells.len() implies (#[trigger] c2[i]).0 == cells[i].0 && c2[i].1 + amount
                * count_of(fl, cells[i].0) == cells[i].1 by {
                let c = count_of(d, cells[i].0);
                assert(c1[i].0 == cells[i].0);
                if i == k {
                    assert(count_of(fl, cells[i].0) == c + 1);
                    assert(amount * (c + 1) == amount * c + amount) by (nonlinear_arith);
                } else {
                    assert(c1[i].0 != c1[k].0);
                    assert(count_of(fl, cells[i].0) == c);
                }
            }
        } else {
            assert forall|i: int| 0 <= i < cells.len() implies (#[trigger] c2[i]).0 == cells[i].0 && c2[i].1 + amount
                * count_of(fl, cells[i].0) == cells[i].1 by {
                assert(c1[i].0 == cells[i].0);
                assert(c1[i].0 != name);
                assert(count_of(fl, cells[i].0) == count_of(d, cells[i].0));
            }
        }
    }
}

} // verus!
