//! The leader's order engine: pending orders, one open assignment per
//! worker, assignment deadlines, parked workers and the stock table. Each
//! operation takes the current time in milliseconds and appends the
//! datagrams to send from the leader's socket to an outbox.
use crate::ack::{Ack, AckKind};
use crate::ack_manager::{
    clear_oldest, deadline, emitted, kept, tries_bounded, AckManager, AckRecord,
};
use crate::addr::{send, sent, Addr, Datagram};
use crate::ice_cream::{deduct_all, names, StockTable};
use crate::protocol::{Message, DTO};
use vstd::prelude::*;

verus! {

/// How long a worker has to finish an assignment, in milliseconds.
pub const ASSIGNMENT_TIMEOUT_MS: u64 = 5000;

/// First retransmission delay of the leader's watched sends.
pub const ACK_TIMEOUT_MS: u64 = 5000;

/// An order held by the leader: the record and its JSON text, relayed to
/// the worker as it came from the interface.
pub struct OrderEntry {
    pub dto: DTO,
    pub body: String,
}

/// An order assigned to a worker.
pub struct Assignment {
    pub worker: Addr,
    pub entry: OrderEntry,
}

/// The deadline of the assignment of order `n_order` to `worker`.
#[derive(Clone, Copy, Debug, PartialEq, Eq, Structural)]
pub struct AssignmentTimer {
    pub worker: Addr,
    pub n_order: usize,
    pub expiration: u64,
}

/// Whether this process leads. It is set once and never cleared.
pub struct LeaderFlag {
    is_leader: bool,
}

impl View for LeaderFlag {
    type V = bool;

    closed spec fn view(&self) -> bool {
        self.is_leader
    }
}

impl LeaderFlag {
    pub fn new() -> (r: LeaderFlag)
        ensures
            !r@,
    {
        LeaderFlag { is_leader: false }
    }

    /// Whether a task parked until this process leads may proceed.
    pub fn wait_for_leader(&self) -> (r: bool)
        ensures
            r == self@,
    {
        self.is_leader
    }

    pub fn set_leader(&mut self)
        ensures
            final(self)@,
    {
        self.is_leader = true;
    }
}

/// The dispatch state of the engine.
pub struct Queues {
    pub pending: Seq<OrderEntry>,
    pub working: Seq<Assignment>,
    pub timers: Seq<AssignmentTimer>,
    pub waiting: Seq<Addr>,
    pub acks: Seq<AckRecord>,
}

/// Everything the engine holds.
pub struct EngineView {
    pub active: bool,
    pub q: Queues,
    pub stock: Seq<(Seq<char>, nat)>,
}

/// Entry `i` has the smallest order id of `p`.
pub open spec fn is_min(p: Seq<OrderEntry>, i: int) -> bool {
    &&& 0 <= i < p.len()
    &&& forall|j: int| 0 <= j < p.len() ==> p[i].dto.id_order <= #[trigger] p[j].dto.id_order
}

/// The pending order dispatched next: the one with the smallest id.
pub open spec fn next_index(p: Seq<OrderEntry>) -> int {
    choose|i: int| is_min(p, i)
}

/// `w` holds an assignment.
pub open spec fn busy(ws: Seq<Assignment>, w: Addr) -> bool {
    exists|i: int| 0 <= i < ws.len() && #[trigger] ws[i].worker == w
}

/// The assignment of `w`, which exists.
pub open spec fn slot_of(ws: Seq<Assignment>, w: Addr) -> int {
    choose|i: int| 0 <= i < ws.len() && #[trigger] ws[i].worker == w
}

/// Some pending order has id `id`.
pub open spec fn pending_has(p: Seq<OrderEntry>, id: usize) -> bool {
    exists|i: int| 0 <= i < p.len() && #[trigger] p[i].dto.id_order == id
}

/// Some assignment is of order `id`.
pub open spec fn working_has(ws: Seq<Assignment>, id: usize) -> bool {
    exists|i: int| 0 <= i < ws.len() && #[trigger] ws[i].entry.dto.id_order == id
}

/// The text of an assignment.
pub open spec fn work_text(e: OrderEntry) -> Seq<char> {
    "Work:"@ + e.body@
}

/// The record tracking a datagram sent at `now`, first due `timeout` later.
pub open spec fn awaiting(to: Addr, msg: Seq<char>, kind: AckKind, now: u64, timeout: u64) -> AckRecord {
    AckRecord { addr: to, msg, kind, tries: 0, expiration: deadline(now, timeout) }
}

/// Assigning the next pending order to `w` at `now`.
pub open spec fn assign(q: Queues, w: Addr, now: u64) -> Queues {
    let e = q.pending[next_index(q.pending)];
    Queues {
        pending: q.pending.remove(next_index(q.pending)),
        working: q.working.push(Assignment { worker: w, entry: e }),
        timers: q.timers.push(
            AssignmentTimer {
                worker: w,
                n_order: e.dto.id_order,
                expiration: deadline(now, ASSIGNMENT_TIMEOUT_MS),
            },
        ),
        waiting: q.waiting,
        acks: q.acks.push(awaiting(w, work_text(e), AckKind::Work, now, ACK_TIMEOUT_MS)),
    }
}

/// The datagram that assigns the next pending order to `w`.
pub open spec fn assign_out(q: Queues, w: Addr) -> (Addr, Seq<char>) {
    (w, work_text(q.pending[next_index(q.pending)]))
}

/// A worker asks for work: a busy one is left as it is; with no pending
/// order it is parked (once); otherwise it gets the next order.
pub open spec fn request(q: Queues, w: Addr, now: u64) -> (Queues, Seq<(Addr, Seq<char>)>) {
    if busy(q.working, w) {
        (q, Seq::empty())
    } else if q.pending.len() == 0 {
        if q.waiting.contains(w) {
            (q, Seq::empty())
        } else {
            (Queues { waiting: q.waiting.push(w), ..q }, Seq::empty())
        }
    } else {
        (assign(q, w, now), seq![assign_out(q, w)])
    }
}

/// Parked workers get pending orders, first parked first, until one of
/// the two runs out.
pub open spec fn dispatch(q: Queues, now: u64) -> (Queues, Seq<(Addr, Seq<char>)>)
    decreases q.waiting.len(),
{
    if q.pending.len() > 0 && q.waiting.len() > 0 {
        let w = q.waiting[0];
        let q1 = Queues { waiting: q.waiting.drop_first(), ..q };
        let r = dispatch(assign(q1, w, now), now);
        (r.0, seq![assign_out(q1, w)] + r.1)
    } else {
        (q, Seq::empty())
    }
}

/// `e` replaces the pending order with its id, or joins the queue.
pub open spec fn put(p: Seq<OrderEntry>, e: OrderEntry) -> Seq<OrderEntry> {
    if pending_has(p, e.dto.id_order) {
        p.update(choose|i: int| 0 <= i < p.len() && #[trigger] p[i].dto.id_order == e.dto.id_order, e)
    } else {
        p.push(e)
    }
}

/// An order arrives: queued (unless it is already assigned), then parked
/// workers are served.
pub open spec fn submit(q: Queues, e: OrderEntry, now: u64) -> (Queues, Seq<(Addr, Seq<char>)>) {
    let q1 = if working_has(q.working, e.dto.id_order) {
        q
    } else {
        Queues { pending: put(q.pending, e), ..q }
    };
    dispatch(q1, now)
}

/// The timers left once the deadline of order `id` at `w` is cancelled.
pub open spec fn drop_timers(ts: Seq<AssignmentTimer>, w: Addr, id: usize) -> Seq<AssignmentTimer>
    decreases ts.len(),
{
    if ts.len() == 0 {
        ts
    } else {
        let r = drop_timers(ts.drop_last(), w, id);
        if ts.last().worker == w && ts.last().n_order == id {
            r
        } else {
            r.push(ts.last())
        }
    }
}

/// A worker reports it is available: its assignment, if any, is done and
/// its deadline cancelled.
pub open spec fn release(q: Queues, w: Addr) -> Queues {
    if busy(q.working, w) {
        let i = slot_of(q.working, w);
        Queues {
            working: q.working.remove(i),
            timers: drop_timers(q.timers, w, q.working[i].entry.dto.id_order),
            ..q
        }
    } else {
        q
    }
}

/// An expired deadline: if `t.worker` still holds order `t.n_order`, the
/// order goes back to the pending queue.
pub open spec fn expire_one(q: Queues, t: AssignmentTimer) -> Queues {
    if busy(q.working, t.worker) && q.working[slot_of(q.working, t.worker)].entry.dto.id_order
        == t.n_order {
        let i = slot_of(q.working, t.worker);
        Queues { pending: q.pending.push(q.working[i].entry), working: q.working.remove(i), ..q }
    } else {
        q
    }
}

/// Every deadline of `ts` that has passed at `now`, in order.
pub open spec fn expire_due(q: Queues, ts: Seq<AssignmentTimer>, now: u64) -> Queues
    decreases ts.len(),
{
    if ts.len() == 0 {
        q
    } else {
        let q1 = expire_due(q, ts.drop_last(), now);
        if ts.last().expiration <= now {
            expire_one(q1, ts.last())
        } else {
            q1
        }
    }
}

/// The deadlines still ahead at `now`.
pub open spec fn live_timers(ts: Seq<AssignmentTimer>, now: u64) -> Seq<AssignmentTimer>
    decreases ts.len(),
{
    if ts.len() == 0 {
        ts
    } else {
        let r = live_timers(ts.drop_last(), now);
        if ts.last().expiration > now {
            r.push(ts.last())
        } else {
            r
        }
    }
}

/// The deadline watch at `now`: expired assignments return to the queue,
/// their deadlines go, and parked workers are served.
pub open spec fn check(q: Queues, now: u64) -> (Queues, Seq<(Addr, Seq<char>)>) {
    let q1 = expire_due(q, q.timers, now);
    dispatch(Queues { timers: live_timers(q.timers, now), ..q1 }, now)
}

/// The invariants that hold between and within operations.
pub open spec fn core_wf(q: Queues) -> bool {
    &&& forall|i: int, j: int|
        #![trigger q.pending[i], q.pending[j]]
        0 <= i < q.pending.len() && 0 <= j < q.pending.len() && i != j ==> q.pending[i].dto.id_order
            != q.pending[j].dto.id_order
    &&& forall|i: int, j: int|
        #![trigger q.working[i], q.working[j]]
        0 <= i < q.working.len() && 0 <= j < q.working.len() && i != j ==> q.working[i].worker
            != q.working[j].worker && q.working[i].entry.dto.id_order != q.working[j].entry.dto.id_order
    &&& forall|i: int, j: int|
        #![trigger q.pending[i], q.working[j]]
        0 <= i < q.pending.len() && 0 <= j < q.working.len() ==> q.pending[i].dto.id_order
            != q.working[j].entry.dto.id_order
    &&& forall|i: int, j: int|
        #![trigger q.waiting[i], q.waiting[j]]
        0 <= i < q.waiting.len() && 0 <= j < q.waiting.len() && i != j ==> q.waiting[i] != q.waiting[j]
    &&& forall|i: int, j: int|
        #![trigger q.waiting[i], q.working[j]]
        0 <= i < q.waiting.len() && 0 <= j < q.working.len() ==> q.waiting[i] != q.working[j].worker
    &&& tries_bounded(q.acks)
}

/// The engine's invariant: the core one, and no worker waits while an
/// order does.
pub open spec fn queues_wf(q: Queues) -> bool {
    &&& core_wf(q)
    &&& q.pending.len() > 0 ==> q.waiting.len() == 0
}

} // verus!

verus! {

proof fn lemma_min_exists(p: Seq<OrderEntry>)
    requires
        p.len() > 0,
    ensures
        is_min(p, next_index(p)),
    decreases p.len(),
{
    if p.len() == 1 {
        assert(is_min(p, 0));
    } else {
        let d = p.drop_last();
        lemma_min_exists(d);
        let k = next_index(d);
        if p.last().dto.id_order < d[k].dto.id_order {
            assert(is_min(p, p.len() - 1)) by {
                assert forall|j: int| 0 <= j < p.len() implies p[p.len() - 1].dto.id_order
                    <= #[trigger] p[j].dto.id_order by {
                    if j < p.len() - 1 {
                        assert(d[j] == p[j]);
                    }
                }
            }
        } else {
            assert(is_min(p, k)) by {
                assert forall|j: int| 0 <= j < p.len() implies p[k].dto.id_order
                    <= #[trigger] p[j].dto.id_order by {
                    if j < p.len() - 1 {
                        assert(d[j] == p[j]);
                    }
                }
            }
        }
    }
}

proof fn lemma_next_is(q: Queues, i: int)
    requires
        core_wf(q),
        is_min(q.pending, i),
    ensures
        next_index(q.pending) == i,
{
    lemma_min_exists(q.pending);
    let k = next_index(q.pending);
    assert(q.pending[k].dto.id_order <= q.pending[i].dto.id_order);
    assert(q.pending[i].dto.id_order <= q.pending[k].dto.id_order);
}

proof fn lemma_slot_is(q: Queues, w: Addr, i: int)
    requires
        core_wf(q),
        0 <= i < q.working.len(),
        q.working[i].worker == w,
    ensures
        busy(q.working, w),
        slot_of(q.working, w) == i,
{
    assert(busy(q.working, w));
    let k = slot_of(q.working, w);
    assert(q.working[k].worker == w);
}

proof fn lemma_assign(q: Queues, w: Addr, now: u64)
    requires
        core_wf(q),
        q.pending.len() > 0,
        !busy(q.working, w),
        !q.waiting.contains(w),
    ensures
        core_wf(assign(q, w, now)),
        assign(q, w, now).pending.len() == q.pending.len() - 1,
        assign(q, w, now).waiting == q.waiting,
{
    lemma_min_exists(q.pending);
    let k = next_index(q.pending);
    let e = q.pending[k];
    let r = assign(q, w, now);
    let a = Assignment { worker: w, entry: e };
    assert forall|i: int| 0 <= i < r.pending.len() implies #[trigger] r.pending[i] == q.pending[
        if i < k {
            i
        } else {
            i + 1
        }
    ] by {}
    assert forall|i: int| 0 <= i < r.working.len() implies #[trigger] r.working[i] == if i < q.working.len() {
        q.working[i]
    } else {
        a
    } by {}
    assert forall|i: int, j: int|
        #![trigger r.pending[i], r.pending[j]]
        0 <= i < r.pending.len() && 0 <= j < r.pending.len() && i != j implies r.pending[i].dto.id_order
            != r.pending[j].dto.id_order by {
        let ii = if i < k {
            i
        } else {
            i + 1
        };
        let jj = if j < k {
            j
        } else {
            j + 1
        };
        assert(q.pending[ii] == r.pending[i] && q.pending[jj] == r.pending[j]);
    }
    assert forall|i: int, j: int|
        #![trigger r.working[i], r.working[j]]
        0 <= i < r.working.len() && 0 <= j < r.working.len() && i != j implies r.working[i].worker
            != r.working[j].worker && r.working[i].entry.dto.id_order != r.working[j].entry.dto.id_order by {
        if i < q.working.len() && j < q.working.len() {
            assert(q.working[i] == r.working[i] && q.working[j] == r.working[j]);
        } else if i < q.working.len() {
            assert(q.pending[k] == e && q.working[i] == r.working[i]);
        } else {
            assert(q.pending[k] == e && q.working[j] == r.working[j]);
        }
    }
    assert forall|i: int, j: int|
        #![trigger r.pending[i], r.working[j]]
        0 <= i < r.pending.len() && 0 <= j < r.working.len() implies r.pending[i].dto.id_order
            != r.working[j].entry.dto.id_order by {
        let ii = if i < k {
            i
        } else {
            i + 1
        };
        assert(q.pending[ii] == r.pending[i]);
        if j < q.working.len() {
            assert(q.working[j] == r.working[j]);
        } else {
            assert(q.pending[k] == e);
        }
    }
    assert forall|i: int, j: int|
        #![trigger r.waiting[i], r.working[j]]
        0 <= i < r.waiting.len() && 0 <= j < r.working.len() implies r.waiting[i] != r.working[j].worker by {
        if j < q.working.len() {
            assert(q.working[j] == r.working[j]);
        } else {
            assert(q.waiting[i] == r.waiting[i]);
        }
    }
    assert(tries_bounded(r.acks)) by {
        assert forall|i: int| 0 <= i < r.acks.len() implies (#[trigger] r.acks[i]).tries <= crate::ack_manager::MAX_TRIES by {
            if i < q.acks.len() {
                assert(r.acks[i] == q.acks[i]);
            }
        }
    }
}

proof fn lemma_dispatch(q: Queues, now: u64)
    requires
        core_wf(q),
    ensures
        queues_wf(dispatch(q, now).0),
    decreases q.waiting.len(),
{
    if q.pending.len() > 0 && q.waiting.len() > 0 {
        let w = q.waiting[0];
        let q1 = Queues { waiting: q.waiting.drop_first(), ..q };
        assert(core_wf(q1)) by {
            assert forall|i: int, j: int|
                #![trigger q1.waiting[i], q1.waiting[j]]
                0 <= i < q1.waiting.len() && 0 <= j < q1.waiting.len() && i != j implies q1.waiting[i]
                    != q1.waiting[j] by {
                assert(q1.waiting[i] == q.waiting[i + 1] && q1.waiting[j] == q.waiting[j + 1]);
            }
            assert forall|i: int, j: int|
                #![trigger q1.waiting[i], q1.working[j]]
                0 <= i < q1.waiting.len() && 0 <= j < q1.working.len() implies q1.waiting[i]
                    != q1.working[j].worker by {
                assert(q1.waiting[i] == q.waiting[i + 1]);
            }
        }
        assert(!busy(q1.working, w)) by {
            if busy(q1.working, w) {
                let j = choose|j: int| 0 <= j < q1.working.len() && #[trigger] q1.working[j].worker == w;
                assert(q.waiting[0] != q.working[j].worker);
            }
        }
        assert(!q1.waiting.contains(w)) by {
            if q1.waiting.contains(w) {
                let j = choose|j: int| 0 <= j < q1.waiting.len() && q1.waiting[j] == w;
                assert(q.waiting[j + 1] == q.waiting[0]);
            }
        }
        lemma_assign(q1, w, now);
        lemma_dispatch(assign(q1, w, now), now);
    }
}

proof fn lemma_request(q: Queues, w: Addr, now: u64)
    requires
        queues_wf(q),
    ensures
        queues_wf(request(q, w, now).0),
{
    if busy(q.working, w) {
    } else if q.pending.len() == 0 {
        if !q.waiting.contains(w) {
            let r = request(q, w, now).0;
            assert forall|i: int, j: int|
                #![trigger r.waiting[i], r.waiting[j]]
                0 <= i < r.waiting.len() && 0 <= j < r.waiting.len() && i != j implies r.waiting[i]
                    != r.waiting[j] by {
                if i < q.waiting.len() && j < q.waiting.len() {
                    assert(r.waiting[i] == q.waiting[i] && r.waiting[j] == q.waiting[j]);
                } else if i < q.waiting.len() {
                    assert(r.waiting[i] == q.waiting[i]);
                } else {
                    assert(r.waiting[j] == q.waiting[j]);
                }
            }
            assert forall|i: int, j: int|
                #![trigger r.waiting[i], r.working[j]]
                0 <= i < r.waiting.len() && 0 <= j < r.working.len() implies r.waiting[i]
                    != r.working[j].worker by {
                if i < q.waiting.len() {
                    assert(r.waiting[i] == q.waiting[i]);
                }
            }
        }
    } else {
        lemma_assign(q, w, now);
    }
}

proof fn lemma_release(q: Queues, w: Addr)
    requires
        queues_wf(q),
    ensures
        queues_wf(release(q, w)),
{
    if busy(q.working, w) {
        let k = slot_of(q.working, w);
        let r = release(q, w);
        assert forall|i: int| 0 <= i < r.working.len() implies #[trigger] r.working[i] == q.working[
            if i < k {
                i
            } else {
                i + 1
            }
        ] by {}
        assert forall|i: int, j: int|
            #![trigger r.working[i], r.working[j]]
            0 <= i < r.working.len() && 0 <= j < r.working.len() && i != j implies r.working[i].worker
                != r.working[j].worker && r.working[i].entry.dto.id_order
                != r.working[j].entry.dto.id_order by {
            let ii = if i < k {
                i
            } else {
                i + 1
            };
            let jj = if j < k {
                j
            } else {
                j + 1
            };
            assert(q.working[ii] == r.working[i] && q.working[jj] == r.working[j]);
        }
        assert forall|i: int, j: int|
            #![trigger r.pending[i], r.working[j]]
            0 <= i < r.pending.len() && 0 <= j < r.working.len() implies r.pending[i].dto.id_order
                != r.working[j].entry.dto.id_order by {
            let jj = if j < k {
                j
            } else {
                j + 1
            };
            assert(q.working[jj] == r.working[j]);
        }
        assert forall|i: int, j: int|
            #![trigger r.waiting[i], r.working[j]]
            0 <= i < r.waiting.len() && 0 <= j < r.working.len() implies r.waiting[i]
                != r.working[j].worker by {
            let jj = if j < k {
                j
            } else {
                j + 1
            };
            assert(q.working[jj] == r.working[j]);
        }
    }
}

proof fn lemma_expire_one(q: Queues, t: AssignmentTimer)
    requires
        core_wf(q),
    ensures
        core_wf(expire_one(q, t)),
        expire_one(q, t).waiting == q.waiting,
        expire_one(q, t).timers == q.timers,
        expire_one(q, t).acks == q.acks,
{
    if busy(q.working, t.worker) && q.working[slot_of(q.working, t.worker)].entry.dto.id_order
        == t.n_order {
        let k = slot_of(q.working, t.worker);
        let e = q.working[k].entry;
        let r = expire_one(q, t);
        assert forall|i: int| 0 <= i < r.working.len() implies #[trigger] r.working[i] == q.working[
            if i < k {
                i
            } else {
                i + 1
            }
        ] by {}
        assert forall|i: int| 0 <= i < r.pending.len() implies #[trigger] r.pending[i] == if i < q.pending.len() {
            q.pending[i]
        } else {
            e
        } by {}
        assert forall|i: int, j: int|
            #![trigger r.pending[i], r.pending[j]]
            0 <= i < r.pending.len() && 0 <= j < r.pending.len() && i != j implies r.pending[i].dto.id_order
                != r.pending[j].dto.id_order by {
            if i < q.pending.len() && j < q.pending.len() {
                assert(r.pending[i] == q.pending[i] && r.pending[j] == q.pending[j]);
            } else if i < q.pending.len() {
                assert(r.pending[i] == q.pending[i]);
                assert(q.working[k].entry == e);
            } else {
                assert(r.pending[j] == q.pending[j]);
                assert(q.working[k].entry == e);
            }
        }
        assert forall|i: int, j: int|
            #![trigger r.working[i], r.working[j]]
            0 <= i < r.working.len() && 0 <= j < r.working.len() && i != j implies r.working[i].worker
                != r.working[j].worker && r.working[i].entry.dto.id_order
                != r.working[j].entry.dto.id_order by {
            let ii = if i < k {
                i
            } else {
                i + 1
            };
            let jj = if j < k {
                j
            } else {
                j + 1
            };
            assert(q.working[ii] == r.working[i] && q.working[jj] == r.working[j]);
        }
        assert forall|i: int, j: int|
            #![trigger r.pending[i], r.working[j]]
            0 <= i < r.pending.len() && 0 <= j < r.working.len() implies r.pending[i].dto.id_order
                != r.working[j].entry.dto.id_order by {
            let jj = if j < k {
                j
            } else {
                j + 1
            };
            assert(q.working[jj] == r.working[j]);
            if i < q.pending.len() {
                assert(r.pending[i] == q.pending[i]);
            } else {
                assert(q.working[k] == q.working[k]);
                assert(jj != k);
            }
        }
        assert forall|i: int, j: int|
            #![trigger r.waiting[i], r.working[j]]
            0 <= i < r.waiting.len() && 0 <= j < r.working.len() implies r.waiting[i]
                != r.working[j].worker by {
            let jj = if j < k {
                j
            } else {
                j + 1
            };
            assert(q.working[jj] == r.working[j]);
        }
    }
}

proof fn lemma_expire_due(q: Queues, ts: Seq<AssignmentTimer>, now: u64)
    requires
        core_wf(q),
    ensures
        core_wf(expire_due(q, ts, now)),
        expire_due(q, ts, now).waiting == q.waiting,
        expire_due(q, ts, now).timers == q.timers,
        expire_due(q, ts, now).acks == q.acks,
    decreases ts.len(),
{
    if ts.len() > 0 {
        lemma_expire_due(q, ts.drop_last(), now);
        lemma_expire_one(expire_due(q, ts.drop_last(), now), ts.last());
    }
}

proof fn lemma_submit(q: Queues, e: OrderEntry, now: u64)
    requires
        queues_wf(q),
    ensures
        queues_wf(submit(q, e, now).0),
{
    if working_has(q.working, e.dto.id_order) {
        lemma_dispatch(q, now);
    } else {
        let q1 = Queues { pending: put(q.pending, e), ..q };
        if pending_has(q.pending, e.dto.id_order) {
            let k = choose|i: int| 0 <= i < q.pending.len() && #[trigger] q.pending[i].dto.id_order == e.dto.id_order;
            assert forall|i: int| 0 <= i < q1.pending.len() implies #[trigger] q1.pending[i] == if i == k {
                e
            } else {
                q.pending[i]
            } by {}
            assert forall|i: int, j: int|
                #![trigger q1.pending[i], q1.pending[j]]
                0 <= i < q1.pending.len() && 0 <= j < q1.pending.len() && i != j implies q1.pending[i].dto.id_order
                    != q1.pending[j].dto.id_order by {
                if i != k && j != k {
                    assert(q1.pending[i] == q.pending[i] && q1.pending[j] == q.pending[j]);
                } else if i == k {
                    assert(q1.pending[j] == q.pending[j]);
                    assert(q.pending[k].dto.id_order == e.dto.id_order);
                } else {
                    assert(q1.pending[i] == q.pending[i]);
                    assert(q.pending[k].dto.id_order == e.dto.id_order);
                }
            }
            assert forall|i: int, j: int|
                #![trigger q1.pending[i], q1.working[j]]
                0 <= i < q1.pending.len() && 0 <= j < q1.working.len() implies q1.pending[i].dto.id_order
                    != q1.working[j].entry.dto.id_order by {
                if i != k {
                    assert(q1.pending[i] == q.pending[i]);
                }
            }
        } else {
            assert forall|i: int| 0 <= i < q1.pending.len() implies #[trigger] q1.pending[i] == if i
                < q.pending.len() {
                q.pending[i]
            } else {
                e
            } by {}
            assert forall|i: int, j: int|
                #![trigger q1.pending[i], q1.pending[j]]
                0 <= i < q1.pending.len() && 0 <= j < q1.pending.len() && i != j implies q1.pending[i].dto.id_order
                    != q1.pending[j].dto.id_order by {
                if i < q.pending.len() && j < q.pending.len() {
                    assert(q1.pending[i] == q.pending[i] && q1.pending[j] == q.pending[j]);
                } else if i < q.pending.len() {
                    assert(q1.pending[i] == q.pending[i]);
                } else {
                    assert(q1.pending[j] == q.pending[j]);
                }
            }
            assert forall|i: int, j: int|
                #![trigger q1.pending[i], q1.working[j]]
                0 <= i < q1.pending.len() && 0 <= j < q1.working.len() implies q1.pending[i].dto.id_order
                    != q1.working[j].entry.dto.id_order by {
                if i < q.pending.len() {
                    assert(q1.pending[i] == q.pending[i]);
                }
            }
        }
        lemma_dispatch(q1, now);
    }
}

proof fn lemma_check(q: Queues, now: u64)
    requires
        core_wf(q),
    ensures
        queues_wf(check(q, now).0),
{
    lemma_expire_due(q, q.timers, now);
    let q1 = expire_due(q, q.timers, now);
    lemma_dispatch(Queues { timers: live_timers(q.timers, now), ..q1 }, now);
}

} // verus!

verus! {

/// The leader's order engine. It lies dormant in every robot and works
/// once its flag is set.
pub struct LeaderOrderProcessing {
    orders_list: Vec<OrderEntry>,
    leader_flag: LeaderFlag,
    working_list: Vec<Assignment>,
    stock: StockTable,
    working_pending: Vec<AssignmentTimer>,
    pending_send_works: Vec<Addr>,
    ack_manager: AckManager,
}

impl View for LeaderOrderProcessing {
    type V = EngineView;

    closed spec fn view(&self) -> EngineView {
        EngineView {
            active: self.leader_flag@,
            q: Queues {
                pending: self.orders_list@,
                working: self.working_list@,
                timers: self.working_pending@,
                waiting: self.pending_send_works@,
                acks: self.ack_manager@,
            },
            stock: self.stock@,
        }
    }
}

impl LeaderOrderProcessing {
    pub closed spec fn wf(&self) -> bool {
        &&& queues_wf(self@.q)
        &&& self.stock.wf()
    }

    /// A dormant engine with nothing queued and the initial stock.
    pub fn new() -> (r: LeaderOrderProcessing)
        ensures
            r.wf(),
            !r@.active,
            r@.q.pending.len() == 0,
            r@.q.working.len() == 0,
            r@.q.timers.len() == 0,
            r@.q.waiting.len() == 0,
            r@.q.acks.len() == 0,
            r@.stock == StockTable::initial_cells(),
    {
        LeaderOrderProcessing {
            orders_list: Vec::new(),
            leader_flag: LeaderFlag::new(),
            working_list: Vec::new(),
            stock: StockTable::initial(),
            working_pending: Vec::new(),
            pending_send_works: Vec::new(),
            ack_manager: AckManager::new(),
        }
    }

    /// This process now leads: the engine starts working.
    pub fn update_leader(&mut self)
        ensures
            final(self)@ == (EngineView { active: true, ..old(self)@ }),
            final(self).wf() == old(self).wf(),
    {
        self.leader_flag.set_leader();
    }

    /// Whether the engine works.
    pub fn is_active(&self) -> (r: bool)
        ensures
            r == self@.active,
    {
        self.leader_flag.wait_for_leader()
    }

    /// Whether a task waiting for pending orders may proceed.
    pub fn wait_for_orders(&self) -> (r: bool)
        ensures
            r == (self@.q.pending.len() > 0),
    {
        self.orders_list.len() > 0
    }

    fn next_order_index(&self) -> (r: usize)
        requires
            self.orders_list@.len() > 0,
        ensures
            is_min(self.orders_list@, r as int),
    {
        let n = self.orders_list.len();
        let mut best: usize = 0;
        let mut i: usize = 1;
        while i < n
            invariant
                n == self.orders_list@.len(),
                1 <= i <= n,
                best < i,
                forall|j: int|
                    0 <= j < i ==> self.orders_list@[best as int].dto.id_order
                        <= #[trigger] self.orders_list@[j].dto.id_order,
            decreases n - i,
        {
            if self.orders_list[i].dto.id_order < self.orders_list[best].dto.id_order {
                best = i;
            }
            i = i + 1;
        }
        best
    }

    fn find_worker(&self, w: Addr) -> (r: Option<usize>)
        requires
            core_wf(self@.q),
        ensures
            r is None <==> !busy(self@.q.working, w),
            r matches Some(i) ==> i < self@.q.working.len() && slot_of(self@.q.working, w) == i,
    {
        let n = self.working_list.len();
        let mut i: usize = 0;
        while i < n
            invariant
                n == self.working_list@.len(),
                core_wf(self@.q),
                i <= n,
                forall|j: int| 0 <= j < i ==> (#[trigger] self.working_list@[j]).worker != w,
            decreases n - i,
        {
            if self.working_list[i].worker == w {
                proof {
                    lemma_slot_is(self@.q, w, i as int);
                }
                return Some(i);
            }
            i = i + 1;
        }
        None
    }

    fn is_parked(&self, w: Addr) -> (r: bool)
        ensures
            r == self@.q.waiting.contains(w),
    {
        let n = self.pending_send_works.len();
        let mut i: usize = 0;
        while i < n
            invariant
                n == self.pending_send_works@.len(),
                i <= n,
                forall|j: int| 0 <= j < i ==> self.pending_send_works@[j] != w,
            decreases n - i,
        {
            if self.pending_send_works[i] == w {
                return true;
            }
            i = i + 1;
        }
        false
    }

    /// Takes the pending order with the smallest id out of the queue.
    fn get_next_order(&mut self) -> (r: OrderEntry)
        requires
            core_wf(old(self)@.q),
            old(self)@.q.pending.len() > 0,
        ensures
            r == old(self)@.q.pending[next_index(old(self)@.q.pending)],
            final(self)@ == (EngineView {
                q: Queues { pending: old(self)@.q.pending.remove(next_index(old(self)@.q.pending)), ..old(self)@.q },
                ..old(self)@
            }),
            final(self).stock == old(self).stock,
            final(self).ack_manager.wf() == old(self).ack_manager.wf(),
    {
        let idx = self.next_order_index();
        proof {
            lemma_next_is(self@.q, idx as int);
        }
        self.orders_list.remove(idx)
    }

    /// Records the assignment of `entry` to `w` with its deadline, and sends
    /// `Work:<dto-json>`, watched.
    fn asign_work(&mut self, w: Addr, entry: OrderEntry, now: u64, out: &mut Vec<Datagram>)
        requires
            old(self).ack_manager.wf(),
        ensures
            final(self)@ == (EngineView {
                q: Queues {
                    working: old(self)@.q.working.push(Assignment { worker: w, entry }),
                    timers: old(self)@.q.timers.push(
                        AssignmentTimer {
                            worker: w,
                            n_order: entry.dto.id_order,
                            expiration: deadline(now, ASSIGNMENT_TIMEOUT_MS),
                        },
                    ),
                    acks: old(self)@.q.acks.push(awaiting(w, work_text(entry), AckKind::Work, now, ACK_TIMEOUT_MS)),
                    ..old(self)@.q
                },
                ..old(self)@
            }),
            sent(final(out)@) == sent(old(out)@).push((w, work_text(entry))),
            final(self).stock == old(self).stock,
    {
        let text = Message::Work(entry.body.clone()).to_text();
        send(out, w, text.clone());
        self.ack_manager.add(Ack::new(w, text, AckKind::Work), now, ACK_TIMEOUT_MS);
        let id = entry.dto.id_order;
        self.working_list.push(Assignment { worker: w, entry });
        self.working_pending.push(
            AssignmentTimer { worker: w, n_order: id, expiration: now.saturating_add(ASSIGNMENT_TIMEOUT_MS) },
        );
    }

    /// Assigns the next pending order to `w`: the order moves to the
    /// working map, its deadline is set, and `Work:<dto-json>` is sent and
    /// watched.
    fn send_work(&mut self, w: Addr, now: u64, out: &mut Vec<Datagram>)
        requires
            core_wf(old(self)@.q),
            old(self)@.q.pending.len() > 0,
            !busy(old(self)@.q.working, w),
            !old(self)@.q.waiting.contains(w),
        ensures
            final(self)@ == (EngineView { q: assign(old(self)@.q, w, now), ..old(self)@ }),
            sent(final(out)@) == sent(old(out)@).push(assign_out(old(self)@.q, w)),
            core_wf(final(self)@.q),
            final(self).stock == old(self).stock,
    {
        proof {
            lemma_assign(self@.q, w, now);
        }
        let entry = self.get_next_order();
        self.asign_work(w, entry, now, out);
    }

    /// A worker asks for work. A busy worker is left as it is; with no
    /// pending order the worker is parked until one comes; otherwise it is
    /// assigned the pending order with the smallest id.
    pub fn send_work_to_robot(&mut self, w: Addr, now: u64, out: &mut Vec<Datagram>)
        requires
            old(self).wf(),
        ensures
            final(self).wf(),
            final(self)@ == (EngineView { q: request(old(self)@.q, w, now).0, ..old(self)@ }),
            sent(final(out)@) == sent(old(out)@) + request(old(self)@.q, w, now).1,
    {
        proof {
            lemma_request(self@.q, w, now);
        }
        if self.find_worker(w).is_some() {
            assert(sent(out@) =~= sent(out@) + Seq::<(Addr, Seq<char>)>::empty());
            return;
        }
        if self.orders_list.len() == 0 {
            if !self.is_parked(w) {
                self.pending_send_works.push(w);
            }
            assert(sent(out@) =~= sent(out@) + Seq::<(Addr, Seq<char>)>::empty());
        } else {
            self.send_work(w, now, out);
            assert(sent(old(out)@).push(assign_out(old(self)@.q, w)) =~= sent(old(out)@) + seq![
                assign_out(old(self)@.q, w),
            ]);
        }
    }

    /// Parked workers get pending orders, first parked first, until one of
    /// the two runs out.
    fn sending_work(&mut self, now: u64, out: &mut Vec<Datagram>)
        requires
            core_wf(old(self)@.q),
            old(self).stock.wf(),
        ensures
            final(self).wf(),
            final(self)@ == (EngineView { q: dispatch(old(self)@.q, now).0, ..old(self)@ }),
            sent(final(out)@) == sent(old(out)@) + dispatch(old(self)@.q, now).1,
    {
        let ghost target = dispatch(self@.q, now);
        let ghost out0 = sent(out@);
        proof {
            lemma_dispatch(self@.q, now);
        }
        assert(sent(out@) + dispatch(self@.q, now).1 == out0 + target.1);
        while self.orders_list.len() > 0 && self.pending_send_works.len() > 0
            invariant
                core_wf(self@.q),
                self.stock.wf(),
                self@.active == old(self)@.active,
                self@.stock == old(self)@.stock,
                dispatch(self@.q, now).0 == target.0,
                sent(out@) + dispatch(self@.q, now).1 == out0 + target.1,
            decreases self.pending_send_works@.len(),
        {
            let ghost q = self@.q;
            let ghost o = sent(out@);
            let w = self.pending_send_works.remove(0);
            let ghost q1 = Queues { waiting: q.waiting.drop_first(), ..q };
            assert(self@.q == q1);
            assert(core_wf(q1)) by {
                assert forall|i: int, j: int|
                    #![trigger q1.waiting[i], q1.waiting[j]]
                    0 <= i < q1.waiting.len() && 0 <= j < q1.waiting.len() && i != j implies q1.waiting[i]
                        != q1.waiting[j] by {
                    assert(q1.waiting[i] == q.waiting[i + 1] && q1.waiting[j] == q.waiting[j + 1]);
                }
                assert forall|i: int, j: int|
                    #![trigger q1.waiting[i], q1.working[j]]
                    0 <= i < q1.waiting.len() && 0 <= j < q1.working.len() implies q1.waiting[i]
                        != q1.working[j].worker by {
                    assert(q1.waiting[i] == q.waiting[i + 1]);
                }
            }
            assert(!busy(q1.working, w)) by {
                if busy(q1.working, w) {
                    let j = choose|j: int| 0 <= j < q1.working.len() && #[trigger] q1.working[j].worker == w;
                    assert(q.waiting[0] != q.working[j].worker);
                }
            }
            assert(!q1.waiting.contains(w)) by {
                if q1.waiting.contains(w) {
                    let j = choose|j: int| 0 <= j < q1.waiting.len() && q1.waiting[j] == w;
                    assert(q.waiting[j + 1] == q.waiting[0]);
                }
            }
            self.send_work(w, now, out);
            assert(sent(out@) + dispatch(self@.q, now).1 =~= o + dispatch(q, now).1);
        }
        assert(dispatch(self@.q, now).1 =~= Seq::<(Addr, Seq<char>)>::empty());
        assert(sent(out@) =~= out0 + target.1);
    }

    /// An order from an interface: `Ack:Order` goes back to `from`; the
    /// order replaces a pending one with its id or joins the queue (an
    /// order already assigned stays where it is); parked workers are then
    /// served.
    pub fn add_order(&mut self, entry: OrderEntry, from: Addr, now: u64, out: &mut Vec<Datagram>)
        requires
            old(self).wf(),
        ensures
            final(self).wf(),
            final(self)@ == (EngineView { q: submit(old(self)@.q, entry, now).0, ..old(self)@ }),
            sent(final(out)@) == sent(old(out)@).push((from, Message::Ack(AckKind::Order).wire())) + submit(
                old(self)@.q,
                entry,
                now,
            ).1,
    {
        proof {
            lemma_submit(self@.q, entry, now);
        }
        let ack = Message::Ack(AckKind::Order).to_text();
        send(out, from, ack);
        let id = entry.dto.id_order;
        let n = self.working_list.len();
        let mut assigned = false;
        let mut i: usize = 0;
        while i < n
            invariant
                n == self.working_list@.len(),
                i <= n,
                assigned == exists|j: int| 0 <= j < i && (#[trigger] self.working_list@[j]).entry.dto.id_order == id,
            decreases n - i,
        {
            if self.working_list[i].entry.dto.id_order == id {
                assigned = true;
            }
            i = i + 1;
        }
        if !assigned {
            let m = self.orders_list.len();
            let mut k: usize = 0;
            let mut found: Option<usize> = None;
            while k < m
                invariant
                    m == self.orders_list@.len(),
                    k <= m,
                    found is None ==> forall|j: int| 0 <= j < k ==> (#[trigger] self.orders_list@[j]).dto.id_order != id,
                    found matches Some(f) ==> f < m && self.orders_list@[f as int].dto.id_order == id,
                decreases m - k,
            {
                if found.is_none() && self.orders_list[k].dto.id_order == id {
                    found = Some(k);
                }
                k = k + 1;
            }
            match found {
                Some(f) => {
                    proof {
                        let p = self.orders_list@;
                        assert(pending_has(p, id));
                        let c = choose|i: int| 0 <= i < p.len() && #[trigger] p[i].dto.id_order == id;
                        assert(c == f as int);
                    }
                    self.orders_list.set(f, entry);
                },
                None => {
                    self.orders_list.push(entry);
                },
            }
        }
        self.sending_work(now, out);
    }

    /// A worker reports it is available: its assignment, if any, is done
    /// and its deadline cancelled.
    pub fn finish_order(&mut self, w: Addr)
        requires
            old(self).wf(),
        ensures
            final(self).wf(),
            final(self)@ == (EngineView { q: release(old(self)@.q, w), ..old(self)@ }),
    {
        proof {
            lemma_release(self@.q, w);
        }
        match self.find_worker(w) {
            None => {},
            Some(i) => {
                let id = self.working_list[i].entry.dto.id_order;
                let _ = self.working_list.remove(i);
                let ts = &self.working_pending;
                let n = ts.len();
                let mut kept_timers: Vec<AssignmentTimer> = Vec::new();
                let mut k: usize = 0;
                while k < n
                    invariant
                        n == ts@.len(),
                        k <= n,
                        kept_timers@ == drop_timers(ts@.subrange(0, k as int), w, id),
                    decreases n - k,
                {
                    let t = ts[k];
                    assert(ts@.subrange(0, k + 1).drop_last() == ts@.subrange(0, k as int));
                    if !(t.worker == w && t.n_order == id) {
                        kept_timers.push(t);
                    }
                    k = k + 1;
                }
                assert(ts@.subrange(0, n as int) == ts@);
                self.working_pending = kept_timers;
            },
        }
    }

    /// The deadline watch at `now`: every assignment whose deadline has
    /// passed and whose worker still holds that order returns to the
    /// pending queue; passed deadlines are dropped; parked workers are
    /// then served.
    pub fn checking_work(&mut self, now: u64, out: &mut Vec<Datagram>)
        requires
            old(self).wf(),
        ensures
            final(self).wf(),
            final(self)@ == (EngineView { q: check(old(self)@.q, now).0, ..old(self)@ }),
            sent(final(out)@) == sent(old(out)@) + check(old(self)@.q, now).1,
    {
        let ghost q0 = self@.q;
        proof {
            lemma_expire_due(q0, q0.timers, now);
        }
        let mut timers: Vec<AssignmentTimer> = Vec::new();
        std::mem::swap(&mut timers, &mut self.working_pending);
        let ghost ts = timers@;
        let mut live: Vec<AssignmentTimer> = Vec::new();
        let n = timers.len();
        let mut k: usize = 0;
        while k < n
            invariant
                n == ts.len(),
                timers@ == ts,
                ts == q0.timers,
                core_wf(q0),
                k <= n,
                self.working_pending@.len() == 0,
                self.stock.wf(),
                self@.active == old(self)@.active,
                self@.stock == old(self)@.stock,
                (Queues { timers: q0.timers, ..self@.q }) == expire_due(q0, ts.subrange(0, k as int), now),
                core_wf(expire_due(q0, ts.subrange(0, k as int), now)),
                live@ == live_timers(ts.subrange(0, k as int), now),
            decreases n - k,
        {
            let t = timers[k];
            assert(ts.subrange(0, k + 1).drop_last() == ts.subrange(0, k as int));
            assert(ts.subrange(0, k + 1).last() == t);
            let ghost cur = Queues { timers: q0.timers, ..self@.q };
            proof {
                lemma_expire_due(q0, ts.subrange(0, k + 1), now);
            }
            if t.expiration <= now {
                let ghost before = self@.q;
                assert(core_wf(cur));
                let mut slot: Option<usize> = None;
                let m = self.working_list.len();
                let mut j: usize = 0;
                while j < m
                    invariant
                        m == self.working_list@.len(),
                        j <= m,
                        slot is None ==> forall|x: int| 0 <= x < j ==> (#[trigger] self.working_list@[x]).worker != t.worker,
                        slot matches Some(s) ==> s < m && self.working_list@[s as int].worker == t.worker,
                    decreases m - j,
                {
                    if slot.is_none() && self.working_list[j].worker == t.worker {
                        slot = Some(j);
                    }
                    j = j + 1;
                }
                match slot {
                    Some(s) => {
                        proof {
                            lemma_slot_is(cur, t.worker, s as int);
                        }
                        if self.working_list[s].entry.dto.id_order == t.n_order {
                            let a = self.working_list.remove(s);
                            self.orders_list.push(a.entry);
                        }
                    },
                    None => {},
                }
                assert((Queues { timers: q0.timers, ..self@.q }) == expire_one(cur, t));
            } else {
                live.push(t);
            }
            k = k + 1;
        }
        assert(ts.subrange(0, n as int) == ts);
        self.working_pending = live;
        self.sending_work(now, out);
    }

    /// Deducts `amount` of each flavour for worker `w`, all or nothing, and
    /// answers `StockResult:<bool>` (sent and watched).
    pub fn use_stock(&mut self, ice_creams: &Vec<String>, amount: u64, w: Addr, now: u64, out: &mut Vec<Datagram>)
        requires
            old(self).wf(),
        ensures
            final(self).wf(),
            ({
                let d = deduct_all(old(self)@.stock, names(ice_creams@), amount as nat);
                let text = Message::StockResult(d is Some).wire();
                &&& final(self)@.stock == match d {
                    Some(c) => c,
                    None => old(self)@.stock,
                }
                &&& final(self)@.active == old(self)@.active
                &&& final(self)@.q == (Queues {
                    acks: old(self)@.q.acks.push(awaiting(w, text, AckKind::StockResult, now, ACK_TIMEOUT_MS)),
                    ..old(self)@.q
                })
                &&& sent(final(out)@) == sent(old(out)@).push((w, text))
            }),
    {
        let result = self.stock.use_stock(ice_creams, amount);
        let text = Message::StockResult(result).to_text();
        send(out, w, text.clone());
        self.ack_manager.add(Ack::new(w, text, AckKind::StockResult), now, ACK_TIMEOUT_MS);
        assert(tries_bounded(self@.q.acks)) by {
            assert(self.ack_manager.wf());
        }
    }

    /// An acknowledgement that reached the leader's socket: `Work` and
    /// `StockResult` clear the oldest matching watched send; others are
    /// ignored.
    pub fn resolve_ack(&mut self, kind: AckKind, from: Addr)
        requires
            old(self).wf(),
        ensures
            final(self).wf(),
            final(self)@ == if kind == AckKind::Work || kind == AckKind::StockResult {
                EngineView {
                    q: Queues { acks: clear_oldest(old(self)@.q.acks, from, kind), ..old(self)@.q },
                    ..old(self)@
                }
            } else {
                old(self)@
            },
    {
        if kind == AckKind::Work || kind == AckKind::StockResult {
            self.ack_manager.remove(kind, from);
        }
    }

    /// Retransmits the leader's watched sends that are due at `now`.
    pub fn retransmit(&mut self, now: u64, out: &mut Vec<Datagram>)
        requires
            old(self).wf(),
        ensures
            final(self).wf(),
            final(self)@ == (EngineView {
                q: Queues { acks: kept(old(self)@.q.acks, now), ..old(self)@.q },
                ..old(self)@
            }),
            sent(final(out)@) == sent(old(out)@) + emitted(old(self)@.q.acks, now),
    {
        self.ack_manager.tick(now, out);
    }

    /// The remaining quantity of a flavour, if the table has it.
    pub fn stock_of(&self, name: &String) -> (r: Option<u64>)
        requires
            self.wf(),
        ensures
            r is None <==> !crate::ice_cream::has_flavour(self@.stock, name@),
            r matches Some(q) ==> q == self@.stock[crate::ice_cream::cell_of(self@.stock, name@)].1,
    {
        self.stock.stock_of(name)
    }
}

} // verus!

verus! {

/// Order `id` is held by the engine: pending or assigned.
pub open spec fn held(q: Queues, id: usize) -> bool {
    pending_has(q.pending, id) || working_has(q.working, id)
}

/// In every reachable state of the engine an order is never both pending
/// and assigned, and no worker holds two assignments.
pub proof fn lemma_order_in_one_place(q: Queues)
    requires
        queues_wf(q),
    ensures
        forall|id: usize| !(pending_has(q.pending, id) && working_has(q.working, id)),
        forall|i: int, j: int|
            0 <= i < q.working.len() && 0 <= j < q.working.len() && #[trigger] q.working[i].worker
                == #[trigger] q.working[j].worker ==> i == j,
{
    assert forall|id: usize| !(pending_has(q.pending, id) && working_has(q.working, id)) by {
        if pending_has(q.pending, id) && working_has(q.working, id) {
            let i = choose|i: int| 0 <= i < q.pending.len() && #[trigger] q.pending[i].dto.id_order == id;
            let j = choose|j: int| 0 <= j < q.working.len() && #[trigger] q.working[j].entry.dto.id_order == id;
            assert(q.pending[i].dto.id_order != q.working[j].entry.dto.id_order);
        }
    }
}

proof fn lemma_assign_held(q: Queues, w: Addr, now: u64)
    requires
        core_wf(q),
        q.pending.len() > 0,
    ensures
        forall|id: usize| held(assign(q, w, now), id) == held(q, id),
{
    lemma_min_exists(q.pending);
    let k = next_index(q.pending);
    let e = q.pending[k];
    let r = assign(q, w, now);
    assert forall|id: usize| held(r, id) == held(q, id) by {
        if held(q, id) {
            if pending_has(q.pending, id) {
                let i = choose|i: int| 0 <= i < q.pending.len() && #[trigger] q.pending[i].dto.id_order == id;
                if i == k {
                    assert(r.working[q.working.len() as int].entry.dto.id_order == id);
                } else if i < k {
                    assert(r.pending[i].dto.id_order == id);
                } else {
                    assert(r.pending[i - 1].dto.id_order == id);
                }
            } else {
                let j = choose|j: int| 0 <= j < q.working.len() && #[trigger] q.working[j].entry.dto.id_order == id;
                assert(r.working[j].entry.dto.id_order == id);
            }
        }
        if held(r, id) {
            if pending_has(r.pending, id) {
                let i = choose|i: int| 0 <= i < r.pending.len() && #[trigger] r.pending[i].dto.id_order == id;
                if i < k {
                    assert(q.pending[i].dto.id_order == id);
                } else {
                    assert(q.pending[i + 1].dto.id_order == id);
                }
            } else {
                let j = choose|j: int| 0 <= j < r.working.len() && #[trigger] r.working[j].entry.dto.id_order == id;
                if j < q.working.len() {
                    assert(q.working[j].entry.dto.id_order == id);
                } else {
                    assert(q.pending[k].dto.id_order == id);
                }
            }
        }
    }
}

proof fn lemma_dispatch_held(q: Queues, now: u64)
    requires
        core_wf(q),
    ensures
        forall|id: usize| held(dispatch(q, now).0, id) == held(q, id),
    decreases q.waiting.len(),
{
    if q.pending.len() > 0 && q.waiting.len() > 0 {
        let w = q.waiting[0];
        let q1 = Queues { waiting: q.waiting.drop_first(), ..q };
        assert(core_wf(q1)) by {
            assert forall|i: int, j: int|
                #![trigger q1.waiting[i], q1.waiting[j]]
                0 <= i < q1.waiting.len() && 0 <= j < q1.waiting.len() && i != j implies q1.waiting[i]
                    != q1.waiting[j] by {
                assert(q1.waiting[i] == q.waiting[i + 1] && q1.waiting[j] == q.waiting[j + 1]);
            }
            assert forall|i: int, j: int|
                #![trigger q1.waiting[i], q1.working[j]]
                0 <= i < q1.waiting.len() && 0 <= j < q1.working.len() implies q1.waiting[i]
                    != q1.working[j].worker by {
                assert(q1.waiting[i] == q.waiting[i + 1]);
            }
        }
        assert(!busy(q1.working, w)) by {
            if busy(q1.working, w) {
                let j = choose|j: int| 0 <= j < q1.working.len() && #[trigger] q1.working[j].worker == w;
                assert(q.waiting[0] != q.working[j].worker);
            }
        }
        assert(!q1.waiting.contains(w)) by {
            if q1.waiting.contains(w) {
                let j = choose|j: int| 0 <= j < q1.waiting.len() && q1.waiting[j] == w;
                assert(q.waiting[j + 1] == q.waiting[0]);
            }
        }
        lemma_assign(q1, w, now);
        lemma_assign_held(q1, w, now);
        lemma_dispatch_held(assign(q1, w, now), now);
        assert(dispatch(q, now).0 == dispatch(assign(q1, w, now), now).0);
        assert forall|id: usize| held(dispatch(q, now).0, id) == held(q, id) by {
            assert(held(dispatch(assign(q1, w, now), now).0, id) == held(assign(q1, w, now), id));
            assert(held(assign(q1, w, now), id) == held(q1, id));
            assert(held(q1, id) == held(q, id));
        }
    }
}

/// A worker asking for work never makes an order appear or vanish.
pub proof fn lemma_request_keeps_orders(q: Queues, w: Addr, now: u64)
    requires
        queues_wf(q),
    ensures
        forall|id: usize| held(request(q, w, now).0, id) == held(q, id),
{
    if !busy(q.working, w) && q.pending.len() > 0 {
        lemma_assign_held(q, w, now);
    }
}

/// A submitted order is held afterwards, and so is every order held before;
/// no other order appears.
pub proof fn lemma_submit_keeps_orders(q: Queues, e: OrderEntry, now: u64)
    requires
        queues_wf(q),
    ensures
        held(submit(q, e, now).0, e.dto.id_order),
        forall|id: usize| held(submit(q, e, now).0, id) == (held(q, id) || id == e.dto.id_order),
{
    let id0 = e.dto.id_order;
    let q1 = if working_has(q.working, id0) {
        q
    } else {
        Queues { pending: put(q.pending, e), ..q }
    };
    lemma_submit(q, e, now);
    assert(core_wf(q1)) by {
        if !working_has(q.working, id0) {
            lemma_put_core(q, e);
        }
    }
    assert forall|id: usize| held(q1, id) == (held(q, id) || id == id0) by {
        if !working_has(q.working, id0) {
            if pending_has(q.pending, id0) {
                let k = choose|i: int| 0 <= i < q.pending.len() && #[trigger] q.pending[i].dto.id_order == id0;
                if pending_has(q.pending, id) {
                    let i = choose|i: int| 0 <= i < q.pending.len() && #[trigger] q.pending[i].dto.id_order == id;
                    if i == k {
                        assert(q1.pending[k].dto.id_order == id0);
                    } else {
                        assert(q1.pending[i].dto.id_order == id);
                    }
                }
                if pending_has(q1.pending, id) {
                    let i = choose|i: int| 0 <= i < q1.pending.len() && #[trigger] q1.pending[i].dto.id_order == id;
                    if i != k {
                        assert(q.pending[i].dto.id_order == id);
                    }
                }
                if id == id0 {
                    assert(q1.pending[k].dto.id_order == id0);
                }
            } else {
                if pending_has(q.pending, id) {
                    let i = choose|i: int| 0 <= i < q.pending.len() && #[trigger] q.pending[i].dto.id_order == id;
                    assert(q1.pending[i].dto.id_order == id);
                }
                if pending_has(q1.pending, id) {
                    let i = choose|i: int| 0 <= i < q1.pending.len() && #[trigger] q1.pending[i].dto.id_order == id;
                    if i < q.pending.len() {
                        assert(q.pending[i].dto.id_order == id);
                    }
                }
                if id == id0 {
                    assert(q1.pending[q.pending.len() as int].dto.id_order == id0);
                }
            }
        }
    }
    lemma_dispatch_held(q1, now);
    assert(submit(q, e, now).0 == dispatch(q1, now).0);
    assert forall|id: usize| held(submit(q, e, now).0, id) == (held(q, id) || id == id0) by {
        assert(held(dispatch(q1, now).0, id) == held(q1, id));
    }
    assert(held(q1, id0) == (held(q, id0) || id0 == id0));
    assert(held(dispatch(q1, now).0, id0) == held(q1, id0));
}

proof fn lemma_put_core(q: Queues, e: OrderEntry)
    requires
        queues_wf(q),
        !working_has(q.working, e.dto.id_order),
    ensures
        core_wf(Queues { pending: put(q.pending, e), ..q }),
{
    lemma_submit(q, e, 0);
    let q1 = Queues { pending: put(q.pending, e), ..q };
    if pending_has(q.pending, e.dto.id_order) {
        let k = choose|i: int| 0 <= i < q.pending.len() && #[trigger] q.pending[i].dto.id_order == e.dto.id_order;
        assert forall|i: int, j: int|
            #![trigger q1.pending[i], q1.pending[j]]
            0 <= i < q1.pending.len() && 0 <= j < q1.pending.len() && i != j implies q1.pending[i].dto.id_order
                != q1.pending[j].dto.id_order by {
            if i != k && j != k {
                assert(q1.pending[i] == q.pending[i] && q1.pending[j] == q.pending[j]);
            } else if i == k {
                assert(q1.pending[j] == q.pending[j]);
            } else {
                assert(q1.pending[i] == q.pending[i]);
            }
        }
        assert forall|i: int, j: int|
            #![trigger q1.pending[i], q1.working[j]]
            0 <= i < q1.pending.len() && 0 <= j < q1.working.len() implies q1.pending[i].dto.id_order
                != q1.working[j].entry.dto.id_order by {
            if i != k {
                assert(q1.pending[i] == q.pending[i]);
            }
        }
    } else {
        assert forall|i: int, j: int|
            #![trigger q1.pending[i], q1.pending[j]]
            0 <= i < q1.pending.len() && 0 <= j < q1.pending.len() && i != j implies q1.pending[i].dto.id_order
                != q1.pending[j].dto.id_order by {
            if i < q.pending.len() && j < q.pending.len() {
                assert(q1.pending[i] == q.pending[i] && q1.pending[j] == q.pending[j]);
            } else if i < q.pending.len() {
                assert(q1.pending[i] == q.pending[i]);
            } else {
                assert(q1.pending[j] == q.pending[j]);
            }
        }
        assert forall|i: int, j: int|
            #![trigger q1.pending[i], q1.working[j]]
            0 <= i < q1.pending.len() && 0 <= j < q1.working.len() implies q1.pending[i].dto.id_order
                != q1.working[j].entry.dto.id_order by {
            if i < q.pending.len() {
                assert(q1.pending[i] == q.pending[i]);
            }
        }
    }
}

/// A worker that holds no assignment and asks while orders are pending is
/// sent the pending order with the smallest id at once.
pub proof fn lemma_idle_worker_gets_work(q: Queues, w: Addr, now: u64)
    requires
        queues_wf(q),
        q.pending.len() > 0,
        !busy(q.working, w),
    ensures
        request(q, w, now).1 == seq![(w, work_text(q.pending[next_index(q.pending)]))],
        is_min(q.pending, next_index(q.pending)),
{
    lemma_min_exists(q.pending);
}

/// While an order is pending no worker is parked; and an order submitted
/// while a worker is parked is sent to the first parked worker at once.
pub proof fn lemma_parked_worker_served(q: Queues, e: OrderEntry, now: u64)
    requires
        queues_wf(q),
        q.waiting.len() > 0,
        !working_has(q.working, e.dto.id_order),
    ensures
        q.pending.len() == 0,
        submit(q, e, now).1.len() >= 1,
        submit(q, e, now).1[0] == (q.waiting[0], work_text(e)),
{
    let q1 = Queues { pending: put(q.pending, e), ..q };
    assert(!pending_has(q.pending, e.dto.id_order));
    assert(q1.pending =~= seq![e]);
    assert(is_min(q1.pending, 0));
    lemma_put_core(q, e);
    lemma_next_is(q1, 0);
    let q2 = Queues { waiting: q1.waiting.drop_first(), ..q1 };
    assert(next_index(q2.pending) == 0);
}

proof fn lemma_expire_one_held(q: Queues, t: AssignmentTimer)
    requires
        core_wf(q),
    ensures
        forall|id: usize| held(expire_one(q, t), id) == held(q, id),
{
    if busy(q.working, t.worker) && q.working[slot_of(q.working, t.worker)].entry.dto.id_order == t.n_order {
        let k = slot_of(q.working, t.worker);
        let r = expire_one(q, t);
        assert forall|id: usize| held(r, id) == held(q, id) by {
            if pending_has(q.pending, id) {
                let i = choose|i: int| 0 <= i < q.pending.len() && #[trigger] q.pending[i].dto.id_order == id;
                assert(r.pending[i].dto.id_order == id);
            }
            if working_has(q.working, id) {
                let j = choose|j: int| 0 <= j < q.working.len() && #[trigger] q.working[j].entry.dto.id_order == id;
                if j == k {
                    assert(r.pending[q.pending.len() as int].dto.id_order == id);
                } else if j < k {
                    assert(r.working[j].entry.dto.id_order == id);
                } else {
                    assert(r.working[j - 1].entry.dto.id_order == id);
                }
            }
            if pending_has(r.pending, id) {
                let i = choose|i: int| 0 <= i < r.pending.len() && #[trigger] r.pending[i].dto.id_order == id;
                if i < q.pending.len() {
                    assert(q.pending[i].dto.id_order == id);
                } else {
                    assert(q.working[k].entry.dto.id_order == id);
                }
            }
            if working_has(r.working, id) {
                let j = choose|j: int| 0 <= j < r.working.len() && #[trigger] r.working[j].entry.dto.id_order == id;
                if j < k {
                    assert(q.working[j].entry.dto.id_order == id);
                } else {
                    assert(q.working[j + 1].entry.dto.id_order == id);
                }
            }
        }
    }
}

proof fn lemma_expire_due_held(q: Queues, ts: Seq<AssignmentTimer>, now: u64)
    requires
        core_wf(q),
    ensures
        forall|id: usize| held(expire_due(q, ts, now), id) == held(q, id),
    decreases ts.len(),
{
    if ts.len() > 0 {
        lemma_expire_due_held(q, ts.drop_last(), now);
        lemma_expire_due(q, ts.drop_last(), now);
        lemma_expire_one_held(expire_due(q, ts.drop_last(), now), ts.last());
    }
}

/// The deadline watch never makes an order appear or vanish: an expired
/// assignment's order goes back to the pending queue.
pub proof fn lemma_check_keeps_orders(q: Queues, now: u64)
    requires
        queues_wf(q),
    ensures
        forall|id: usize| held(check(q, now).0, id) == held(q, id),
{
    lemma_expire_due_held(q, q.timers, now);
    lemma_expire_due(q, q.timers, now);
    let q1 = expire_due(q, q.timers, now);
    let q2 = Queues { timers: live_timers(q.timers, now), ..q1 };
    lemma_dispatch_held(q2, now);
    assert forall|id: usize| held(check(q, now).0, id) == held(q, id) by {
        assert(held(dispatch(q2, now).0, id) == held(q2, id));
        assert(held(q2, id) == held(q1, id));
    }
}

/// A worker reporting availability completes its own assignment's order,
/// which leaves the engine; every other order stays where it was.
pub proof fn lemma_release_drops_its_order(q: Queues, w: Addr)
    requires
        queues_wf(q),
    ensures
        forall|id: usize|
            held(release(q, w), id) == (held(q, id) && !(busy(q.working, w) && id
                == q.working[slot_of(q.working, w)].entry.dto.id_order)),
{
    if busy(q.working, w) {
        let k = slot_of(q.working, w);
        let r = release(q, w);
        let done = q.working[k].entry.dto.id_order;
        assert forall|id: usize| held(r, id) == (held(q, id) && id != done) by {
            if pending_has(q.pending, id) {
                let i = choose|i: int| 0 <= i < q.pending.len() && #[trigger] q.pending[i].dto.id_order == id;
                assert(r.pending[i].dto.id_order == id);
                assert(q.pending[i].dto.id_order != q.working[k].entry.dto.id_order);
            }
            if working_has(q.working, id) && id != done {
                let j = choose|j: int| 0 <= j < q.working.len() && #[trigger] q.working[j].entry.dto.id_order == id;
                if j < k {
                    assert(r.working[j].entry.dto.id_order == id);
                } else {
                    assert(r.working[j - 1].entry.dto.id_order == id);
                }
            }
            if working_has(r.working, id) {
                let j = choose|j: int| 0 <= j < r.working.len() && #[trigger] r.working[j].entry.dto.id_order == id;
                if j < k {
                    assert(q.working[j].entry.dto.id_order == id);
                    assert(q.working[j].entry.dto.id_order != q.working[k].entry.dto.id_order);
                } else {
                    assert(q.working[j + 1].entry.dto.id_order == id);
                    assert(q.working[j + 1].entry.dto.id_order != q.working[k].entry.dto.id_order);
                }
            }
            if pending_has(r.pending, id) {
                let i = choose|i: int| 0 <= i < r.pending.len() && #[trigger] r.pending[i].dto.id_order == id;
                assert(q.pending[i].dto.id_order != q.working[k].entry.dto.id_order);
            }
        }
    }
}

} // verus!
