//! At-least-once delivery over datagrams: every watched send is retransmitted
//! until acknowledged, at most `MAX_TRIES` times, then dropped, escalating an
//! undeliverable result to the neighbouring interfaces.
use crate::ack::{Ack, AckKind};
use crate::addr::{sent, send, Addr, Datagram, INTERFACE_PORT_BASE, LOOPBACK};
use crate::text::{has_prefix, starts_with};
use vstd::prelude::*;

verus! {

/// How many times a record is retransmitted before it is given up.
pub const MAX_TRIES: usize = 3;

/// Delay between two retransmissions of a record, in milliseconds.
pub const RETRANSMIT_INTERVAL_MS: u64 = 1000;

/// A watched record and the instant (milliseconds) it is next due.
pub struct TimedItem {
    pub item_type: Ack,
    pub expiration: u64,
}

/// What the manager knows of a watched record.
pub struct AckRecord {
    pub addr: Addr,
    pub msg: Seq<char>,
    pub kind: AckKind,
    pub tries: nat,
    pub expiration: u64,
}

impl TimedItem {
    pub open spec fn record(self) -> AckRecord {
        AckRecord {
            addr: self.item_type.addr,
            msg: self.item_type.msg@,
            kind: self.item_type.type_msg,
            tries: self.item_type.num_tries as nat,
            expiration: self.expiration,
        }
    }
}

/// The records of a sequence of watched items.
pub open spec fn records(s: Seq<TimedItem>) -> Seq<AckRecord> {
    s.map_values(|t: TimedItem| t.record())
}

/// The record of an `ack` first due at `expiration`.
pub open spec fn fresh(ack: Ack, expiration: u64) -> AckRecord {
    AckRecord {
        addr: ack.addr,
        msg: ack.msg@,
        kind: ack.type_msg,
        tries: ack.num_tries as nat,
        expiration,
    }
}

/// `now + timeout`, saturating at the largest instant.
pub open spec fn deadline(now: u64, timeout: u64) -> u64 {
    if now + timeout > u64::MAX {
        u64::MAX
    } else {
        (now + timeout) as u64
    }
}

/// The record clears on an `Ack:<kind>` from `addr`.
pub open spec fn acked_by(t: AckRecord, addr: Addr, kind: AckKind) -> bool {
    t.addr == addr && t.kind == kind
}

/// The records left once the oldest one an `Ack:<kind>` from `addr`
/// answers is cleared.
pub open spec fn clear_oldest(s: Seq<AckRecord>, addr: Addr, kind: AckKind) -> Seq<AckRecord>
    decreases s.len(),
{
    if s.len() == 0 {
        s
    } else if acked_by(s[0], addr, kind) {
        s.drop_first()
    } else {
        seq![s[0]] + clear_oldest(s.drop_first(), addr, kind)
    }
}

proof fn lemma_clear_oldest_skips(s: Seq<AckRecord>, addr: Addr, kind: AckKind, i: int)
    requires
        0 <= i <= s.len(),
        forall|j: int| 0 <= j < i ==> !acked_by(#[trigger] s[j], addr, kind),
    ensures
        clear_oldest(s, addr, kind) == s.subrange(0, i) + clear_oldest(s.subrange(i, s.len() as int), addr, kind),
    decreases i,
{
    if i > 0 {
        let t = s.drop_first();
        assert forall|j: int| 0 <= j < i - 1 implies !acked_by(#[trigger] t[j], addr, kind) by {
            assert(t[j] == s[j + 1]);
        }
        lemma_clear_oldest_skips(t, addr, kind, i - 1);
        assert(t.subrange(i - 1, t.len() as int) =~= s.subrange(i, s.len() as int));
        assert(s.subrange(0, i) =~= seq![s[0]] + t.subrange(0, i - 1));
        assert(!acked_by(s[0], addr, kind));
    } else {
        assert(s.subrange(0, 0) + s.subrange(0, s.len() as int) =~= s);
    }
}

/// What becomes of a record at `now`: kept as is, retransmitted and
/// rescheduled, or (once retransmitted `MAX_TRIES` times) dropped.
pub open spec fn after_tick(t: AckRecord, now: u64) -> Option<AckRecord> {
    if t.expiration > now {
        Some(t)
    } else if t.tries < MAX_TRIES {
        Some(AckRecord { tries: t.tries + 1, expiration: deadline(now, RETRANSMIT_INTERVAL_MS), ..t })
    } else {
        None
    }
}

/// The interfaces next to the one at `addr` (ids one above and one below),
/// those that have a port.
pub open spec fn neighbours(addr: Addr) -> Seq<Addr> {
    if addr.port < INTERFACE_PORT_BASE {
        Seq::empty()
    } else {
        let above = if addr.port < u16::MAX {
            seq![Addr { ip: LOOPBACK, port: (addr.port + 1) as u16 }]
        } else {
            Seq::empty()
        };
        let below = if addr.port > INTERFACE_PORT_BASE {
            seq![Addr { ip: LOOPBACK, port: (addr.port - 1) as u16 }]
        } else {
            Seq::empty()
        };
        above + below
    }
}

/// The failover text for an undelivered `Robot:<suffix>` result.
pub open spec fn resilience_text(msg: Seq<char>) -> Seq<char> {
    "Resilience:"@ + msg.subrange("Robot:"@.len() as int, msg.len() as int)
}

/// The datagrams that the escalation of a dropped record sends.
pub open spec fn escalation(a: AckRecord) -> Seq<(Addr, Seq<char>)> {
    if a.kind == AckKind::ResultInterface && has_prefix(a.msg, "Robot:"@) {
        neighbours(a.addr).map_values(|n: Addr| (n, resilience_text(a.msg)))
    } else {
        Seq::empty()
    }
}

/// The datagrams one record causes at `now`.
pub open spec fn tick_output(t: AckRecord, now: u64) -> Seq<(Addr, Seq<char>)> {
    if t.expiration > now {
        Seq::empty()
    } else if t.tries < MAX_TRIES {
        seq![(t.addr, t.msg)]
    } else {
        escalation(t)
    }
}

/// The records left after a tick at `now`, in their order.
pub open spec fn kept(s: Seq<AckRecord>, now: u64) -> Seq<AckRecord>
    decreases s.len(),
{
    if s.len() == 0 {
        Seq::empty()
    } else {
        let rest = kept(s.drop_last(), now);
        match after_tick(s.last(), now) {
            Some(t) => rest.push(t),
            None => rest,
        }
    }
}

/// Everything a tick at `now` sends, record by record.
pub open spec fn emitted(s: Seq<AckRecord>, now: u64) -> Seq<(Addr, Seq<char>)>
    decreases s.len(),
{
    if s.len() == 0 {
        Seq::empty()
    } else {
        emitted(s.drop_last(), now) + tick_output(s.last(), now)
    }
}

/// No record has been retransmitted more than `MAX_TRIES` times.
pub open spec fn tries_bounded(s: Seq<AckRecord>) -> bool {
    forall|i: int| 0 <= i < s.len() ==> (#[trigger] s[i]).tries <= MAX_TRIES
}

/// The records awaiting acknowledgement on one socket.
pub struct AckManager {
    acks: Vec<TimedItem>,
}

impl View for AckManager {
    type V = Seq<AckRecord>;

    closed spec fn view(&self) -> Seq<AckRecord> {
        records(self.acks@)
    }
}

impl AckManager {
    pub open spec fn wf(&self) -> bool {
        tries_bounded(self@)
    }

    pub fn new() -> (r: AckManager)
        ensures
            r@ == Seq::<AckRecord>::empty(),
            r.wf(),
    {
        let r = AckManager { acks: Vec::new() };
        assert(r@ =~= Seq::<AckRecord>::empty());
        r
    }

    /// Tracks `ack`, first due `timeout` milliseconds after `now`.
    pub fn add(&mut self, ack: Ack, now: u64, timeout: u64)
        requires
            old(self).wf(),
            ack.num_tries <= MAX_TRIES,
        ensures
            final(self).wf(),
            final(self)@ == old(self)@.push(fresh(ack, deadline(now, timeout))),
    {
        let expiration = now.saturating_add(timeout);
        self.acks.push(TimedItem { item_type: ack, expiration });
        assert(self@ =~= old(self)@.push(fresh(ack, deadline(now, timeout))));
    }

    /// Clears the oldest record that an `Ack:<kind>` from `addr` answers;
    /// nothing when there is none.
    pub fn remove(&mut self, kind: AckKind, addr: Addr)
        requires
            old(self).wf(),
        ensures
            final(self).wf(),
            final(self)@ == clear_oldest(old(self)@, addr, kind),
    {
        let n = self.acks.len();
        let mut i: usize = 0;
        while i < n
            invariant
                n == self.acks@.len(),
                self@ == old(self)@,
                tries_bounded(old(self)@),
                i <= n,
                forall|j: int| 0 <= j < i ==> !acked_by(#[trigger] self@[j], addr, kind),
            decreases n - i,
        {
            assert(self@[i as int] == self.acks@[i as int].record());
            if self.acks[i].item_type.is_equal(addr, kind) {
                let ghost before = self@;
                proof {
                    lemma_clear_oldest_skips(before, addr, kind, i as int);
                    let rest = before.subrange(i as int, before.len() as int);
                    assert(rest[0] == before[i as int]);
                    assert(clear_oldest(rest, addr, kind) == rest.drop_first());
                }
                let _ = self.acks.remove(i);
                assert(self@ =~= before.remove(i as int));
                assert(before.subrange(0, i as int) + before.subrange(i as int, before.len() as int).drop_first()
                    =~= before.remove(i as int));
                return;
            }
            i = i + 1;
        }
        proof {
            lemma_clear_oldest_skips(self@, addr, kind, n as int);
            assert(self@.subrange(0, n as int) + Seq::<AckRecord>::empty() =~= self@);
        }
    }

    /// Sends the failover datagrams for a dropped record.
    fn escalate(ack: &Ack, out: &mut Vec<Datagram>)
        ensures
            sent(final(out)@) == sent(old(out)@) + escalation(fresh(*ack, 0)),
    {
        proof {
            reveal_strlit("Robot:");
        }
        if ack.type_msg == AckKind::ResultInterface && starts_with(ack.msg.as_str(), "Robot:") {
            let len = ack.msg.as_str().unicode_len();
            let mut text = String::from_str("Resilience:");
            text.append(ack.msg.as_str().substring_char(6, len));
            let ghost t = text@;
            assert(t == resilience_text(ack.msg@));
            let port = ack.addr.port;
            let ghost start = sent(out@);
            if port >= INTERFACE_PORT_BASE {
                if port < u16::MAX {
                    send(out, Addr { ip: LOOPBACK, port: port + 1 }, text.clone());
                }
                if port > INTERFACE_PORT_BASE {
                    send(out, Addr { ip: LOOPBACK, port: port - 1 }, text);
                }
            }
            assert(sent(out@) =~= start + escalation(fresh(*ack, 0)));
        }
    }

    /// Handles the records due at `now`: each is retransmitted and
    /// rescheduled one interval later, or dropped and escalated once it has
    /// been retransmitted `MAX_TRIES` times. Records not yet due stay as they
    /// are.
    pub fn tick(&mut self, now: u64, out: &mut Vec<Datagram>)
        requires
            old(self).wf(),
        ensures
            final(self).wf(),
            final(self)@ == kept(old(self)@, now),
            sent(final(out)@) == sent(old(out)@) + emitted(old(self)@, now),
    {
        let mut items: Vec<TimedItem> = Vec::new();
        std::mem::swap(&mut items, &mut self.acks);
        let ghost all = records(items@);
        let ghost out0 = sent(out@);
        assert(self@ =~= kept(all.subrange(0, 0), now));
        let n = items.len();
        let mut i: usize = 0;
        while i < n
            invariant
                n == all.len(),
                i <= n,
                tries_bounded(all),
                records(items@) == all.subrange(i as int, n as int),
                items@.len() == n - i,
                self@ == kept(all.subrange(0, i as int), now),
                tries_bounded(self@),
                sent(out@) == out0 + emitted(all.subrange(0, i as int), now),
            decreases n - i,
        {
            assert(records(items@)[0] == items@[0].record());
            let ghost items0 = items@;
            let mut t = items.remove(0);
            assert(items@ =~= items0.subrange(1, items0.len() as int));
            assert forall|k: int| 0 <= k < items@.len() implies #[trigger] records(items@)[k] == all[i + 1 + k] by {
                assert(items@[k] == items0[k + 1]);
                assert(records(items0)[k + 1] == all.subrange(i as int, n as int)[k + 1]);
            }
            assert(records(items@) =~= all.subrange(i + 1, n as int));
            let ghost r0 = t.record();
            assert(r0 == all[i as int]);
            assert(all.subrange(0, i + 1).drop_last() == all.subrange(0, i as int));
            assert(all.subrange(0, i + 1).last() == r0);
            let ghost prev = self@;
            if t.expiration > now {
                self.acks.push(t);
            } else if t.item_type.num_tries < MAX_TRIES {
                send(out, t.item_type.addr, t.item_type.msg.clone());
                t.item_type.increment_tries();
                t.expiration = now.saturating_add(RETRANSMIT_INTERVAL_MS);
                self.acks.push(t);
            } else {
                AckManager::escalate(&t.item_type, out);
                assert(escalation(fresh(t.item_type, 0)) == escalation(r0));
            }
            assert(self@ =~= kept(all.subrange(0, i + 1), now));
            assert(tries_bounded(self@)) by {
                assert forall|k: int| 0 <= k < self@.len() implies (#[trigger] self@[k]).tries <= MAX_TRIES by {
                    if k < prev.len() {
                        assert(self@[k] == prev[k]);
                    }
                }
            }
            i = i + 1;
        }
        assert(all.subrange(0, n as int) == all);
    }

    /// Whether nothing awaits acknowledgement.
    pub fn is_idle(&self) -> (r: bool)
        ensures
            r == (self@.len() == 0),
    {
        self.acks.len() == 0
    }
}

/// A record is retransmitted only while it has been retransmitted fewer
/// than `MAX_TRIES` times, and each retransmission counts; once due with
/// `MAX_TRIES` retransmissions it is dropped. So no record is ever
/// retransmitted more than `MAX_TRIES` times.
pub proof fn lemma_bounded_retransmissions(t: AckRecord, now: u64)
    requires
        t.tries <= MAX_TRIES,
    ensures
        tick_output(t, now).len() > 0 && t.kind != AckKind::ResultInterface ==> t.tries < MAX_TRIES,
        t.expiration <= now && t.tries < MAX_TRIES ==> after_tick(t, now) == Some(
            AckRecord { tries: t.tries + 1, expiration: deadline(now, RETRANSMIT_INTERVAL_MS), ..t },
        ) && tick_output(t, now) == seq![(t.addr, t.msg)],
        t.expiration <= now && t.tries == MAX_TRIES ==> after_tick(t, now) is None && tick_output(t, now)
            == escalation(t),
        after_tick(t, now) matches Some(u) ==> u.tries <= MAX_TRIES,
{
}

/// Every record kept by a tick has at most `MAX_TRIES` retransmissions.
pub proof fn lemma_tick_keeps_tries_bounded(s: Seq<AckRecord>, now: u64)
    requires
        tries_bounded(s),
    ensures
        tries_bounded(kept(s, now)),
        kept(s, now).len() <= s.len(),
    decreases s.len(),
{
    if s.len() > 0 {
        let d = s.drop_last();
        assert(tries_bounded(d)) by {
            assert forall|i: int| 0 <= i < d.len() implies (#[trigger] d[i]).tries <= MAX_TRIES by {
                assert(d[i] == s[i]);
            }
        }
        lemma_tick_keeps_tries_bounded(d, now);
        assert(s.last().tries <= MAX_TRIES);
        let k = kept(s, now);
        assert forall|i: int| 0 <= i < k.len() implies (#[trigger] k[i]).tries <= MAX_TRIES by {
            if i < kept(d, now).len() {
                assert(k[i] == kept(d, now)[i]);
            }
        }
    }
}

} // verus!
