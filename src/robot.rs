//! A robot of the ring: joining, leader election, the worker's side of an
//! order, and the relay of stock and availability messages to the engine
//! it hosts. Datagrams from the robot's own socket and from the leader's
//! well-known socket go to separate outboxes.
use crate::ack::{Ack, AckKind};
use crate::ack_manager::{clear_oldest, emitted, kept, AckManager, AckRecord};
use crate::chance::random_range;
use crate::addr::{offset_addr, send, sent, Addr, Datagram, LOOPBACK, ROBOT_PORT_BASE};
use crate::ice_cream::{names, share};
use crate::leader_order_processing::{
    awaiting, release, request, submit, EngineView, LeaderOrderProcessing, OrderEntry, Queues, ACK_TIMEOUT_MS,
};
use crate::protocol::{clone_strings, Message, DTO};
use vstd::prelude::*;

verus! {

/// Robots announce themselves to the ids below this bound.
pub const PEER_ID_LIMIT: usize = 10;

/// First retransmission delay of a robot's watched sends.
pub const ROBOT_ACK_TIMEOUT_MS: u64 = 5000;

/// Datagrams to send from the robot's socket and from the leader's.
pub struct Outbox {
    pub robot: Vec<Datagram>,
    pub leader: Vec<Datagram>,
}

impl Outbox {
    pub fn new() -> (r: Outbox)
        ensures
            r.robot@.len() == 0,
            r.leader@.len() == 0,
    {
        Outbox { robot: Vec::new(), leader: Vec::new() }
    }
}

/// What a robot holds.
pub struct RobotView {
    pub id: usize,
    pub addr: Addr,
    pub leader: Option<Addr>,
    pub peers: Seq<Addr>,
    pub im_leader: bool,
    pub engine: EngineView,
    pub current_order: Option<DTO>,
    pub current_order_result: Option<bool>,
    pub acks: Seq<AckRecord>,
}

/// A robot's place in the ring.
pub struct Role {
    pub leader: Option<Addr>,
    pub im_leader: bool,
}

impl RobotView {
    pub open spec fn role(self) -> Role {
        Role { leader: self.leader, im_leader: self.im_leader }
    }
}

/// After an `Announce`: a robot that knows no leader promotes itself.
pub open spec fn after_announce(r: Role, me: Addr) -> Role {
    if r.leader is None {
        Role { leader: Some(me), im_leader: true }
    } else {
        r
    }
}

/// After `Leader` from `sender`: the sender leads.
pub open spec fn after_leader(r: Role, sender: Addr) -> Role {
    Role { leader: Some(sender), ..r }
}

/// Whether a robot in role `r` at `me` answers an `Announce` with
/// `Leader` (rather than `Hello`).
pub open spec fn answers_as_leader(r: Role, me: Addr) -> bool {
    after_announce(r, me).leader == Some(me)
}

/// `p` joins the peer set.
pub open spec fn add_peer(peers: Seq<Addr>, p: Addr) -> Seq<Addr> {
    if peers.contains(p) {
        peers
    } else {
        peers.push(p)
    }
}

/// The address of robot `i < PEER_ID_LIMIT`.
pub open spec fn robot_addr(i: nat) -> Addr {
    Addr { ip: LOOPBACK, port: (ROBOT_PORT_BASE + i) as u16 }
}

/// The robots `1 .. k`, but `id`, that a joining robot announces itself to.
pub open spec fn targets(id: nat, k: nat) -> Seq<Addr>
    decreases k,
{
    if k <= 1 {
        Seq::empty()
    } else {
        targets(id, (k - 1) as nat) + if (k - 1) as nat != id {
            seq![robot_addr((k - 1) as nat)]
        } else {
            Seq::empty()
        }
    }
}

pub open spec fn ack_text(k: AckKind) -> Seq<char> {
    Message::Ack(k).wire()
}

/// A worker frees itself: a leader hands its own availability to its
/// engine (and acknowledges it to itself); a follower sends a watched
/// `Availability` to its leader. The current order is cleared. Gives the
/// new state and what goes out from the robot's and the leader's sockets.
pub open spec fn availability(v: RobotView, now: u64) -> (RobotView, Seq<(Addr, Seq<char>)>, Seq<
    (Addr, Seq<char>),
>) {
    let cleared = RobotView { current_order: None, current_order_result: None, ..v };
    if v.im_leader {
        let r = request(release(v.engine.q, v.addr), v.addr, now);
        (
            RobotView { engine: EngineView { q: r.0, ..v.engine }, ..cleared },
            seq![(v.addr, ack_text(AckKind::Availability))],
            r.1,
        )
    } else if v.leader is Some {
        let l = v.leader.unwrap();
        let text = Message::Availability.wire();
        (
            RobotView {
                acks: v.acks.push(awaiting(l, text, AckKind::Availability, now, ROBOT_ACK_TIMEOUT_MS)),
                ..cleared
            },
            seq![(l, text)],
            Seq::empty(),
        )
    } else {
        (cleared, Seq::empty(), Seq::empty())
    }
}

/// A robot of the ring.
pub struct Robot {
    id: usize,
    addr: Addr,
    leader_id: Option<Addr>,
    peers: Vec<Addr>,
    im_leader: bool,
    leader_order_processing: LeaderOrderProcessing,
    current_order: Option<DTO>,
    current_order_result: Option<bool>,
    ack_manager: AckManager,
}

impl View for Robot {
    type V = RobotView;

    closed spec fn view(&self) -> RobotView {
        RobotView {
            id: self.id,
            addr: self.addr,
            leader: self.leader_id,
            peers: self.peers@,
            im_leader: self.im_leader,
            engine: self.leader_order_processing@,
            current_order: self.current_order,
            current_order_result: self.current_order_result,
            acks: self.ack_manager@,
        }
    }
}

impl Robot {
    pub closed spec fn wf(&self) -> bool {
        &&& self.leader_order_processing.wf()
        &&& self.ack_manager.wf()
        &&& self.im_leader == self.leader_order_processing@.active
    }

    /// Robot `id`, listening at `127.0.0.1:(6000 + id)`, alone and knowing
    /// no leader.
    pub fn new(id: usize) -> (r: Robot)
        requires
            offset_addr(ROBOT_PORT_BASE, id as nat) is Some,
        ensures
            r.wf(),
            r@.id == id,
            Some(r@.addr) == offset_addr(ROBOT_PORT_BASE, id as nat),
            r@.leader is None,
            r@.peers.len() == 0,
            !r@.im_leader,
            r@.current_order is None,
            r@.current_order_result is None,
            r@.acks.len() == 0,
            r@.engine.q.pending.len() == 0,
            r@.engine.q.working.len() == 0,
    {
        let addr = Addr::robot(id).unwrap();
        Robot {
            id,
            addr,
            leader_id: None,
            peers: Vec::new(),
            im_leader: false,
            leader_order_processing: LeaderOrderProcessing::new(),
            current_order: None,
            current_order_result: None,
            ack_manager: AckManager::new(),
        }
    }

    pub fn get_addr(&self) -> (r: Addr)
        ensures
            r == self@.addr,
    {
        self.addr
    }

    pub fn get_leader(&self) -> (r: Option<Addr>)
        ensures
            r == self@.leader,
    {
        self.leader_id
    }

    pub fn is_leader(&self) -> (r: bool)
        ensures
            r == self@.im_leader,
    {
        self.im_leader
    }

    pub fn get_peers(&self) -> (r: Vec<Addr>)
        ensures
            r@ == self@.peers,
    {
        self.peers.clone()
    }

    /// The engine this robot hosts.
    pub fn engine(&self) -> (r: &LeaderOrderProcessing)
        ensures
            r@ == self@.engine,
            self.wf() ==> r.wf(),
    {
        &self.leader_order_processing
    }

    fn add_peer(&mut self, p: Addr)
        ensures
            final(self)@ == (RobotView { peers: add_peer(old(self)@.peers, p), ..old(self)@ }),
            final(self).wf() == old(self).wf(),
    {
        let n = self.peers.len();
        let mut i: usize = 0;
        while i < n
            invariant
                n == self.peers@.len(),
                i <= n,
                forall|j: int| 0 <= j < i ==> self.peers@[j] != p,
            decreases n - i,
        {
            if self.peers[i] == p {
                return;
            }
            i = i + 1;
        }
        self.peers.push(p);
    }

    /// Sends `msg` from the robot's socket and watches it under `kind`.
    fn send_watched(&mut self, to: Addr, msg: Message, kind: AckKind, now: u64, out: &mut Outbox)
        requires
            old(self).wf(),
        ensures
            final(self).wf(),
            final(self)@ == (RobotView {
                acks: old(self)@.acks.push(awaiting(to, msg.wire(), kind, now, ROBOT_ACK_TIMEOUT_MS)),
                ..old(self)@
            }),
            sent(final(out).robot@) == sent(old(out).robot@).push((to, msg.wire())),
            final(out).leader == old(out).leader,
    {
        let text = msg.to_text();
        send(&mut out.robot, to, text.clone());
        self.ack_manager.add(Ack::new(to, text, kind), now, ROBOT_ACK_TIMEOUT_MS);
    }

    /// Sends `msg` from the robot's socket, unwatched.
    fn send_plain(to: Addr, msg: Message, out: &mut Outbox)
        ensures
            sent(final(out).robot@) == sent(old(out).robot@).push((to, msg.wire())),
            final(out).leader == old(out).leader,
    {
        let text = msg.to_text();
        send(&mut out.robot, to, text);
    }

    /// Joining the ring: `Announce:<id>` to every other robot id below
    /// `PEER_ID_LIMIT`, each watched.
    pub fn announce(&mut self, now: u64, out: &mut Outbox)
        requires
            old(self).wf(),
        ensures
            final(self).wf(),
            ({
                let t = targets(old(self)@.id as nat, PEER_ID_LIMIT as nat);
                let text = Message::Announce(old(self)@.id).wire();
                &&& final(self)@ == (RobotView {
                    acks: old(self)@.acks + t.map_values(
                        |a: Addr| awaiting(a, text, AckKind::Announce, now, ROBOT_ACK_TIMEOUT_MS),
                    ),
                    ..old(self)@
                })
                &&& sent(final(out).robot@) == sent(old(out).robot@) + t.map_values(|a: Addr| (a, text))
            }),
            final(out).leader == old(out).leader,
    {
        let ghost text = Message::Announce(self.id).wire();
        let ghost acks0 = self@.acks;
        let ghost out0 = sent(out.robot@);
        let mut i: usize = 1;
        assert(targets(self.id as nat, 1) =~= Seq::<Addr>::empty());
        while i < PEER_ID_LIMIT
            invariant
                1 <= i <= PEER_ID_LIMIT,
                self.wf(),
                text == Message::Announce(self@.id).wire(),
                self@ == (RobotView {
                    acks: acks0 + targets(self@.id as nat, i as nat).map_values(
                        |a: Addr| awaiting(a, text, AckKind::Announce, now, ROBOT_ACK_TIMEOUT_MS),
                    ),
                    ..old(self)@
                }),
                sent(out.robot@) == out0 + targets(self@.id as nat, i as nat).map_values(|a: Addr| (a, text)),
                out.leader == old(out).leader,
            decreases PEER_ID_LIMIT - i,
        {
            let ghost before = targets(self@.id as nat, i as nat);
            let ghost acks1 = self@.acks;
            let ghost out1 = sent(out.robot@);
            assert(targets(self@.id as nat, (i + 1) as nat) == before + if i as nat != self@.id as nat {
                seq![robot_addr(i as nat)]
            } else {
                Seq::empty()
            });
            if i != self.id {
                let a = Addr::loopback(ROBOT_PORT_BASE + i as u16);
                assert(a == robot_addr(i as nat));
                self.send_watched(a, Message::Announce(self.id), AckKind::Announce, now, out);
                assert(self@.acks =~= acks0 + targets(self@.id as nat, (i + 1) as nat).map_values(
                    |a: Addr| awaiting(a, text, AckKind::Announce, now, ROBOT_ACK_TIMEOUT_MS),
                ));
                assert(sent(out.robot@) =~= out0 + targets(self@.id as nat, (i + 1) as nat).map_values(
                    |a: Addr| (a, text),
                ));
            } else {
                assert(targets(self@.id as nat, (i + 1) as nat) =~= before);
            }
            i = i + 1;
        }
    }

    /// This robot takes the lead and starts its engine.
    fn promote(&mut self)
        requires
            old(self).wf(),
        ensures
            final(self).wf(),
            final(self)@ == (RobotView {
                leader: Some(old(self)@.addr),
                im_leader: true,
                engine: EngineView { active: true, ..old(self)@.engine },
                ..old(self)@
            }),
    {
        self.leader_id = Some(self.addr);
        self.im_leader = true;
        self.leader_order_processing.update_leader();
    }

    /// `Announce:<from_id>` from `sender`: `Ack:Announce` back and the
    /// sender joins the peers. A robot that knows no leader promotes itself.
    /// A leader answers `Leader:<id>` (watched) and asks its engine for
    /// work for the joiner (and, just promoted, for itself); a follower
    /// answers `Hello:<id>` (watched).
    pub fn handle_announce(&mut self, from_id: usize, sender: Addr, now: u64, out: &mut Outbox)
        requires
            old(self).wf(),
        ensures
            final(self).wf(),
            ({
                let v = old(self)@;
                let role = after_announce(v.role(), v.addr);
                let leads = answers_as_leader(v.role(), v.addr);
                let reply = if leads {
                    Message::Leader(v.id)
                } else {
                    Message::Hello(v.id)
                };
                let kind = if leads {
                    AckKind::Leader
                } else {
                    AckKind::Hello
                };
                let q1 = request(v.engine.q, sender, now);
                let q2 = request(q1.0, v.addr, now);
                &&& final(self)@.role() == role
                &&& final(self)@.peers == add_peer(v.peers, sender)
                &&& final(self)@.acks == v.acks.push(awaiting(sender, reply.wire(), kind, now, ROBOT_ACK_TIMEOUT_MS))
                &&& final(self)@.id == v.id && final(self)@.addr == v.addr
                &&& final(self)@.current_order == v.current_order
                &&& final(self)@.current_order_result == v.current_order_result
                &&& final(self)@.engine.stock == v.engine.stock
                &&& final(self)@.engine.active == (v.engine.active || v.leader is None)
                &&& sent(final(out).robot@) == sent(old(out).robot@).push((sender, ack_text(AckKind::Announce))).push(
                    (sender, reply.wire()),
                )
                &&& if !leads {
                    final(self)@.engine == v.engine && final(out).leader == old(out).leader
                } else if v.leader is None {
                    final(self)@.engine.q == q2.0 && sent(final(out).leader@) == sent(old(out).leader@) + q1.1
                        + q2.1
                } else {
                    final(self)@.engine.q == q1.0 && sent(final(out).leader@) == sent(old(out).leader@) + q1.1
                }
            }),
    {
        Robot::send_plain(sender, Message::Ack(AckKind::Announce), out);
        self.add_peer(sender);
        match self.leader_id {
            Some(l) => {
                if l == self.addr {
                    self.send_watched(sender, Message::Leader(self.id), AckKind::Leader, now, out);
                    self.leader_order_processing.send_work_to_robot(sender, now, &mut out.leader);
                } else {
                    self.send_watched(sender, Message::Hello(self.id), AckKind::Hello, now, out);
                }
            },
            None => {
                self.promote();
                self.send_watched(sender, Message::Leader(self.id), AckKind::Leader, now, out);
                self.leader_order_processing.send_work_to_robot(sender, now, &mut out.leader);
                let me = self.addr;
                self.leader_order_processing.send_work_to_robot(me, now, &mut out.leader);
            },
        }
    }

    /// `Order:<dto-json>` at the leader's socket from `from`: handed to the
    /// engine (see `LeaderOrderProcessing::add_order`).
    pub fn leader_add_order(&mut self, entry: OrderEntry, from: Addr, now: u64, out: &mut Outbox)
        requires
            old(self).wf(),
        ensures
            final(self).wf(),
            ({
                let v = old(self)@;
                let r = submit(v.engine.q, entry, now);
                &&& final(self)@ == (RobotView { engine: EngineView { q: r.0, ..v.engine }, ..v })
                &&& sent(final(out).leader@) == sent(old(out).leader@).push((from, ack_text(AckKind::Order))) + r.1
                &&& final(out).robot == old(out).robot
            }),
    {
        self.leader_order_processing.add_order(entry, from, now, &mut out.leader);
    }

    /// `Ack:<kind>` at the leader's socket from `from`: handed to the engine
    /// (see `LeaderOrderProcessing::resolve_ack`).
    pub fn leader_resolve_ack(&mut self, kind: AckKind, from: Addr)
        requires
            old(self).wf(),
        ensures
            final(self).wf(),
            final(self)@ == if kind == AckKind::Work || kind == AckKind::StockResult {
                RobotView {
                    engine: EngineView {
                        q: Queues { acks: clear_oldest(old(self)@.engine.q.acks, from, kind), ..old(self)@.engine.q },
                        ..old(self)@.engine
                    },
                    ..old(self)@
                }
            } else {
                old(self)@
            },
    {
        self.leader_order_processing.resolve_ack(kind, from);
    }

    /// `Leader:<id>` from `sender`: the sender leads and joins the peers;
    /// `Ack:Leader` goes back.
    pub fn handle_leader(&mut self, leader_id: usize, sender: Addr, out: &mut Outbox)
        requires
            old(self).wf(),
        ensures
            final(self).wf(),
            final(self)@ == (RobotView {
                leader: Some(sender),
                peers: add_peer(old(self)@.peers, sender),
                ..old(self)@
            }),
            final(self)@.role() == after_leader(old(self)@.role(), sender),
            sent(final(out).robot@) == sent(old(out).robot@).push((sender, ack_text(AckKind::Leader))),
            final(out).leader == old(out).leader,
    {
        self.leader_id = Some(sender);
        self.add_peer(sender);
        Robot::send_plain(sender, Message::Ack(AckKind::Leader), out);
    }

    /// `Hello:<id>` from `sender`: the sender joins the peers; `Ack:Hello`
    /// goes back.
    pub fn handle_hello(&mut self, from_id: usize, sender: Addr, out: &mut Outbox)
        requires
            old(self).wf(),
        ensures
            final(self).wf(),
            final(self)@ == (RobotView { peers: add_peer(old(self)@.peers, sender), ..old(self)@ }),
            sent(final(out).robot@) == sent(old(out).robot@).push((sender, ack_text(AckKind::Hello))),
            final(out).leader == old(out).leader,
    {
        self.add_peer(sender);
        Robot::send_plain(sender, Message::Ack(AckKind::Hello), out);
    }

    /// `Election:<id>` from `sender`. A robot with a larger id passes its
    /// own id on to the first peer other than the sender; with no such peer
    /// it takes the lead and sends `Leader:<my_id>` to every peer. A robot
    /// with a smaller or equal id drops the token.
    pub fn handle_election(&mut self, id: usize, sender: Addr, out: &mut Outbox)
        requires
            old(self).wf(),
        ensures
            final(self).wf(),
            final(out).leader == old(out).leader,
            ({
                let v = old(self)@;
                let others = exists|i: int| 0 <= i < v.peers.len() && v.peers[i] != sender;
                if v.id <= id {
                    final(self)@ == v && final(out).robot == old(out).robot
                } else if others {
                    let k = choose|i: int|
                        0 <= i < v.peers.len() && v.peers[i] != sender && forall|j: int|
                            0 <= j < i ==> v.peers[j] == sender;
                    &&& final(self)@ == v
                    &&& sent(final(out).robot@) == sent(old(out).robot@).push(
                        (v.peers[k], Message::Election(v.id).wire()),
                    )
                } else {
                    &&& final(self)@ == (RobotView {
                        leader: Some(v.addr),
                        im_leader: true,
                        engine: EngineView { active: true, ..v.engine },
                        ..v
                    })
                    &&& sent(final(out).robot@) == sent(old(out).robot@) + v.peers.map_values(
                        |p: Addr| (p, Message::Leader(v.id).wire()),
                    )
                }
            }),
    {
        if self.id <= id {
            return;
        }
        let n = self.peers.len();
        let mut i: usize = 0;
        while i < n
            invariant
                n == self.peers@.len(),
                i <= n,
                self@ == old(self)@,
                self.wf(),
                self@.id > id,
                out.robot == old(out).robot,
                out.leader == old(out).leader,
                forall|j: int| 0 <= j < i ==> self.peers@[j] == sender,
            decreases n - i,
        {
            if self.peers[i] != sender {
                let next = self.peers[i];
                proof {
                    let v = self@;
                    let k = choose|k: int|
                        0 <= k < v.peers.len() && v.peers[k] != sender && forall|j: int|
                            0 <= j < k ==> v.peers[j] == sender;
                    assert(k == i as int) by {
                        if k < i {
                            assert(v.peers[k] == sender);
                        } else if k > i {
                            assert(v.peers[i as int] == sender);
                        }
                    }
                }
                Robot::send_plain(next, Message::Election(self.id), out);
                return;
            }
            i = i + 1;
        }
        self.promote();
        let ghost mid = self@;
        let ghost out0 = sent(out.robot@);
        let ghost text = Message::Leader(self.id).wire();
        let mut k: usize = 0;
        while k < n
            invariant
                n == self.peers@.len(),
                k <= n,
                text == Message::Leader(self@.id).wire(),
                self@ == mid,
                self.wf(),
                sent(out.robot@) == out0 + self.peers@.subrange(0, k as int).map_values(|p: Addr| (p, text)),
                out.leader == old(out).leader,
            decreases n - k,
        {
            Robot::send_plain(self.peers[k], Message::Leader(self.id), out);
            assert(self.peers@.subrange(0, k + 1).map_values(|p: Addr| (p, text)) =~= self.peers@.subrange(
                0,
                k as int,
            ).map_values(|p: Addr| (p, text)).push((self.peers@[k as int], text)));
            k = k + 1;
        }
        assert(self.peers@.subrange(0, n as int) == self.peers@);
    }
}

impl Robot {
    /// `Work:<dto-json>` from the leader's socket `sender`: `Ack:Work`
    /// back; the order becomes current; each worker's share of it is asked
    /// of the leader with a watched `UseStock`.
    pub fn handle_work(&mut self, dto: DTO, sender: Addr, now: u64, out: &mut Outbox)
        requires
            old(self).wf(),
        ensures
            final(self).wf(),
            final(out).leader == old(out).leader,
            ({
                let v = old(self)@;
                let amount = share(dto.size_order as nat, dto.ice_creams@.len());
                let text = Message::UseStock(dto.ice_creams, amount as u64).wire();
                let base = sent(old(out).robot@).push((sender, ack_text(AckKind::Work)));
                &&& final(self)@.current_order == Some(dto)
                &&& v.leader matches Some(l) ==> {
                    &&& final(self)@ == (RobotView {
                        current_order: Some(dto),
                        acks: v.acks.push(awaiting(l, text, AckKind::UseStock, now, ROBOT_ACK_TIMEOUT_MS)),
                        ..v
                    })
                    &&& sent(final(out).robot@) == base.push((l, text))
                }
                &&& v.leader is None ==> {
                    &&& final(self)@ == (RobotView { current_order: Some(dto), ..v })
                    &&& sent(final(out).robot@) == base
                }
            }),
    {
        Robot::send_plain(sender, Message::Ack(AckKind::Work), out);
        self.prepare_order(&dto, now, out);
        self.current_order = Some(dto);
    }

    /// Asks the leader, if one is known, for each flavour's share of `dto`
    /// with a watched `UseStock`.
    fn prepare_order(&mut self, dto: &DTO, now: u64, out: &mut Outbox)
        requires
            old(self).wf(),
        ensures
            final(self).wf(),
            final(out).leader == old(out).leader,
            ({
                let v = old(self)@;
                let amount = share(dto.size_order as nat, dto.ice_creams@.len());
                let text = Message::UseStock(dto.ice_creams, amount as u64).wire();
                &&& v.leader matches Some(l) ==> {
                    &&& final(self)@ == (RobotView {
                        acks: v.acks.push(awaiting(l, text, AckKind::UseStock, now, ROBOT_ACK_TIMEOUT_MS)),
                        ..v
                    })
                    &&& sent(final(out).robot@) == sent(old(out).robot@).push((l, text))
                }
                &&& v.leader is None ==> final(self)@ == v && final(out).robot == old(out).robot
            }),
    {
        let n = dto.ice_creams.len();
        let amount: u64 = if n == 0 {
            0
        } else {
            dto.size_order / (n as u64)
        };
        match self.leader_id {
            Some(l) => {
                let fl = clone_strings(&dto.ice_creams);
                let msg = Message::UseStock(fl, amount);
                assert(msg.wire() == Message::UseStock(dto.ice_creams, amount).wire());
                self.send_watched(l, msg, AckKind::UseStock, now, out);
            },
            None => {},
        }
    }

    /// `StockResult:<bool>` from the leader's socket `sender`, while an
    /// order is current: `Ack:StockResult` back, the result is kept, and
    /// the time to spend on the order (whole seconds, in `[2, 4)` after a
    /// success and `[2, 3)` after a failure) is drawn. With no current
    /// order nothing happens.
    pub fn handle_stock_result(&mut self, result: bool, sender: Addr, out: &mut Outbox) -> (r: Option<u64>)
        requires
            old(self).wf(),
        ensures
            final(self).wf(),
            final(out).leader == old(out).leader,
            old(self)@.current_order is None ==> r is None && final(self)@ == old(self)@ && final(out).robot
                == old(out).robot,
            old(self)@.current_order is Some ==> {
                &&& final(self)@ == (RobotView { current_order_result: Some(result), ..old(self)@ })
                &&& sent(final(out).robot@) == sent(old(out).robot@).push((sender, ack_text(AckKind::StockResult)))
                &&& r matches Some(d) && 2 <= d && d < if result {
                    4u64
                } else {
                    3u64
                }
            },
    {
        if self.current_order.is_none() {
            return None;
        }
        Robot::send_plain(sender, Message::Ack(AckKind::StockResult), out);
        self.current_order_result = Some(result);
        let delay = if result {
            random_range(2, 4)
        } else {
            random_range(2, 3)
        };
        Some(delay)
    }

    /// `Robot:<id_order>,<result>` to interface `id_interface` (if its
    /// port exists), watched as `Result_Interface`.
    pub fn send_result_interface(&mut self, id_interface: usize, id_order: usize, result: bool, now: u64, out: &mut Outbox)
        requires
            old(self).wf(),
        ensures
            final(self).wf(),
            final(out).leader == old(out).leader,
            ({
                let text = Message::Robot(id_order, result).wire();
                match crate::addr::offset_addr(crate::addr::INTERFACE_PORT_BASE, id_interface as nat) {
                    Some(a) => {
                        &&& final(self)@ == (RobotView {
                            acks: old(self)@.acks.push(awaiting(a, text, AckKind::ResultInterface, now, ROBOT_ACK_TIMEOUT_MS)),
                            ..old(self)@
                        })
                        &&& sent(final(out).robot@) == sent(old(out).robot@).push((a, text))
                    },
                    None => final(self)@ == old(self)@ && final(out).robot == old(out).robot,
                }
            }),
    {
        match Addr::interface(id_interface) {
            Some(a) => {
                self.send_watched(a, Message::Robot(id_order, result), AckKind::ResultInterface, now, out);
            },
            None => {},
        }
    }

    /// Once the time drawn for the current order has passed: its result
    /// goes to the interface that placed it. Nothing without a current
    /// order and result.
    pub fn report_result(&mut self, now: u64, out: &mut Outbox)
        requires
            old(self).wf(),
        ensures
            final(self).wf(),
            final(out).leader == old(out).leader,
            ({
                let v = old(self)@;
                if v.current_order is Some && v.current_order_result is Some {
                    let o = v.current_order.unwrap();
                    let text = Message::Robot(o.id_order, v.current_order_result.unwrap()).wire();
                    match crate::addr::offset_addr(crate::addr::INTERFACE_PORT_BASE, o.id_interface as nat) {
                        Some(a) => {
                            &&& final(self)@ == (RobotView {
                                acks: v.acks.push(awaiting(a, text, AckKind::ResultInterface, now, ROBOT_ACK_TIMEOUT_MS)),
                                ..v
                            })
                            &&& sent(final(out).robot@) == sent(old(out).robot@).push((a, text))
                        },
                        None => final(self)@ == v && final(out).robot == old(out).robot,
                    }
                } else {
                    final(self)@ == v && final(out).robot == old(out).robot
                }
            }),
    {
        let target = match &self.current_order {
            Some(o) => Some((o.id_interface, o.id_order)),
            None => None,
        };
        match (target, self.current_order_result) {
            (Some((id_interface, id_order)), Some(result)) => {
                self.send_result_interface(id_interface, id_order, result, now, out);
            },
            _ => {},
        }
    }

    /// `Availability` from worker `sender`, at the leader: the worker's
    /// assignment is done, it asks for the next order, and
    /// `Ack:Availability` goes back.
    pub fn handle_availability(&mut self, sender: Addr, now: u64, out: &mut Outbox)
        requires
            old(self).wf(),
        ensures
            final(self).wf(),
            ({
                let v = old(self)@;
                let r = request(release(v.engine.q, sender), sender, now);
                &&& final(self)@ == (RobotView { engine: EngineView { q: r.0, ..v.engine }, ..v })
                &&& sent(final(out).leader@) == sent(old(out).leader@) + r.1
                &&& sent(final(out).robot@) == sent(old(out).robot@).push((sender, ack_text(AckKind::Availability)))
            }),
    {
        self.leader_order_processing.finish_order(sender);
        self.leader_order_processing.send_work_to_robot(sender, now, &mut out.leader);
        Robot::send_plain(sender, Message::Ack(AckKind::Availability), out);
    }

    /// The worker is free again (see `availability`).
    pub fn send_availability(&mut self, now: u64, out: &mut Outbox)
        requires
            old(self).wf(),
        ensures
            final(self).wf(),
            ({
                let a = availability(old(self)@, now);
                &&& final(self)@ == a.0
                &&& sent(final(out).robot@) == sent(old(out).robot@) + a.1
                &&& sent(final(out).leader@) == sent(old(out).leader@) + a.2
            }),
    {
        let ghost o0 = sent(out.robot@);
        let ghost l0 = sent(out.leader@);
        if self.im_leader {
            let me = self.addr;
            self.handle_availability(me, now, out);
            assert(sent(out.robot@) =~= o0 + seq![(me, ack_text(AckKind::Availability))]);
        } else {
            match self.leader_id {
                Some(l) => {
                    self.send_watched(l, Message::Availability, AckKind::Availability, now, out);
                    assert(sent(out.robot@) =~= o0 + seq![(l, Message::Availability.wire())]);
                },
                None => {
                    assert(sent(out.robot@) =~= o0 + Seq::<(Addr, Seq<char>)>::empty());
                },
            }
            assert(sent(out.leader@) =~= l0 + Seq::<(Addr, Seq<char>)>::empty());
        }
        self.current_order = None;
        self.current_order_result = None;
    }

    /// `UseStock` from worker `sender`, at the leader: the engine deducts
    /// the stock and answers from the leader's socket; `Ack:UseStock` goes
    /// back from the robot's.
    pub fn handle_use_stock(&mut self, ice_creams: &Vec<String>, amount: u64, sender: Addr, now: u64, out: &mut Outbox)
        requires
            old(self).wf(),
        ensures
            final(self).wf(),
            ({
                let v = old(self)@;
                let d = crate::ice_cream::deduct_all(v.engine.stock, names(ice_creams@), amount as nat);
                let text = Message::StockResult(d is Some).wire();
                &&& final(self)@ == (RobotView {
                    engine: EngineView {
                        stock: match d {
                            Some(c) => c,
                            None => v.engine.stock,
                        },
                        q: Queues {
                            acks: v.engine.q.acks.push(awaiting(sender, text, AckKind::StockResult, now, ACK_TIMEOUT_MS)),
                            ..v.engine.q
                        },
                        ..v.engine
                    },
                    ..v
                })
                &&& sent(final(out).leader@) == sent(old(out).leader@).push((sender, text))
                &&& sent(final(out).robot@) == sent(old(out).robot@).push((sender, ack_text(AckKind::UseStock)))
            }),
    {
        self.leader_order_processing.use_stock(ice_creams, amount, sender, now, &mut out.leader);
        Robot::send_plain(sender, Message::Ack(AckKind::UseStock), out);
    }

    /// `Ack:<kind>` at the robot's socket from `sender`. The kinds a robot
    /// watches clear the oldest matching send; `Result_Interface` first
    /// frees the worker (see `availability`); `Resilience` only frees it;
    /// `Work` and `Order` are not a robot's and are ignored.
    pub fn handle_ack(&mut self, kind: AckKind, sender: Addr, now: u64, out: &mut Outbox)
        requires
            old(self).wf(),
        ensures
            final(self).wf(),
            ({
                let v = old(self)@;
                let a = availability(v, now);
                if kind == AckKind::ResultInterface {
                    &&& final(self)@ == (RobotView { acks: clear_oldest(a.0.acks, sender, kind), ..a.0 })
                    &&& sent(final(out).robot@) == sent(old(out).robot@) + a.1
                    &&& sent(final(out).leader@) == sent(old(out).leader@) + a.2
                } else if kind == AckKind::Resilience {
                    &&& final(self)@ == a.0
                    &&& sent(final(out).robot@) == sent(old(out).robot@) + a.1
                    &&& sent(final(out).leader@) == sent(old(out).leader@) + a.2
                } else if kind == AckKind::Work || kind == AckKind::Order {
                    final(self)@ == v && final(out).robot == old(out).robot && final(out).leader == old(out).leader
                } else {
                    &&& final(self)@ == (RobotView { acks: clear_oldest(v.acks, sender, kind), ..v })
                    &&& final(out).robot == old(out).robot
                    &&& final(out).leader == old(out).leader
                }
            }),
    {
        match kind {
            AckKind::ResultInterface => {
                self.send_availability(now, out);
                self.ack_manager.remove(kind, sender);
            },
            AckKind::Resilience => {
                self.send_availability(now, out);
            },
            AckKind::Work | AckKind::Order => {},
            _ => {
                self.ack_manager.remove(kind, sender);
            },
        }
    }

    /// Periodic work at `now`: the robot's and the engine's watched sends
    /// that are due are retransmitted (or given up), then the engine's
    /// assignment deadlines are checked.
    pub fn tick(&mut self, now: u64, out: &mut Outbox)
        requires
            old(self).wf(),
        ensures
            final(self).wf(),
            ({
                let v = old(self)@;
                let q1 = Queues { acks: kept(v.engine.q.acks, now), ..v.engine.q };
                let c = crate::leader_order_processing::check(q1, now);
                &&& final(self)@ == (RobotView {
                    acks: kept(v.acks, now),
                    engine: EngineView { q: c.0, ..v.engine },
                    ..v
                })
                &&& sent(final(out).robot@) == sent(old(out).robot@) + emitted(v.acks, now)
                &&& sent(final(out).leader@) == sent(old(out).leader@) + emitted(v.engine.q.acks, now) + c.1
            }),
    {
        self.ack_manager.tick(now, &mut out.robot);
        self.leader_order_processing.retransmit(now, &mut out.leader);
        self.leader_order_processing.checking_work(now, &mut out.leader);
    }
}

/// An `Announce` delivered in turn to each robot of `ring` (address and
/// role), each answer reaching the joiner, whose role starts as `jr`: the
/// ring's new roles and the joiner's.
pub open spec fn deliver(ring: Seq<(Addr, Role)>, jr: Role) -> (Seq<(Addr, Role)>, Role)
    decreases ring.len(),
{
    if ring.len() == 0 {
        (ring, jr)
    } else {
        let p = deliver(ring.drop_last(), jr);
        let a = ring.last().0;
        let r = ring.last().1;
        (
            p.0.push((a, after_announce(r, a))),
            if answers_as_leader(r, a) {
                after_leader(p.1, a)
            } else {
                p.1
            },
        )
    }
}

/// A robot at `joiner`, knowing no leader, joins `ring` under synchronous
/// delivery.
pub open spec fn join_ring(ring: Seq<(Addr, Role)>, joiner: Addr) -> Seq<(Addr, Role)> {
    let p = deliver(ring, Role { leader: None, im_leader: false });
    p.0.push((joiner, p.1))
}

/// The ring after robots at `addrs` join one after another.
pub open spec fn ring_of(addrs: Seq<Addr>) -> Seq<(Addr, Role)>
    decreases addrs.len(),
{
    if addrs.len() == 0 {
        Seq::empty()
    } else {
        join_ring(ring_of(addrs.drop_last()), addrs.last())
    }
}

/// The first robot of `ring` leads and every other robot follows it.
pub open spec fn led_by_first(ring: Seq<(Addr, Role)>) -> bool {
    &&& ring[0].1 == (Role { leader: Some(ring[0].0), im_leader: true })
    &&& forall|i: int| 1 <= i < ring.len() ==> #[trigger] ring[i].1 == (Role { leader: Some(ring[0].0), im_leader: false })
}

proof fn lemma_deliver_led(ring: Seq<(Addr, Role)>, k: int)
    requires
        ring.len() >= 2,
        led_by_first(ring),
        forall|i: int| 1 <= i < ring.len() ==> #[trigger] ring[i].0 != ring[0].0,
        1 <= k <= ring.len(),
    ensures
        deliver(ring.subrange(0, k), Role { leader: None, im_leader: false }) == (
            ring.subrange(0, k),
            Role { leader: Some(ring[0].0), im_leader: false },
        ),
    decreases k,
{
    let sub = ring.subrange(0, k);
    let none = Role { leader: None, im_leader: false };
    let a0 = ring[0].0;
    if k == 1 {
        let e = Seq::<(Addr, Role)>::empty();
        assert(sub.drop_last() =~= e);
        assert(deliver(e, none) == (e, none));
        assert(sub.last() == ring[0]);
        assert(after_announce(ring[0].1, a0) == ring[0].1);
        assert(answers_as_leader(ring[0].1, a0));
        assert(e.push((ring[0].0, ring[0].1)) =~= sub);
    } else {
        lemma_deliver_led(ring, k - 1);
        assert(sub.drop_last() =~= ring.subrange(0, k - 1));
        assert(sub.last() == ring[k - 1]);
        let a = ring[k - 1].0;
        assert(a != a0);
        assert(after_announce(ring[k - 1].1, a) == ring[k - 1].1);
        assert(!answers_as_leader(ring[k - 1].1, a));
        assert(ring.subrange(0, k - 1).push((ring[k - 1].0, ring[k - 1].1)) =~= sub);
    }
}

/// Under synchronous delivery, robots that join one after another (each
/// one's `Announce` reaching every running robot in turn, and every answer
/// reaching it before the next robot joins) leave at most one robot in the
/// leader role: the first, which every other robot follows.
pub proof fn lemma_single_leader(addrs: Seq<Addr>)
    requires
        forall|i: int, j: int| 0 <= i < addrs.len() && 0 <= j < addrs.len() && i != j ==> addrs[i] != addrs[j],
    ensures
        ring_of(addrs).len() == addrs.len(),
        forall|i: int| 0 <= i < addrs.len() ==> (#[trigger] ring_of(addrs)[i]).0 == addrs[i],
        forall|i: int, j: int|
            0 <= i < addrs.len() && 0 <= j < addrs.len() && (#[trigger] ring_of(addrs)[i]).1.im_leader && (
            #[trigger] ring_of(addrs)[j]).1.im_leader ==> i == j,
        addrs.len() >= 2 ==> forall|i: int| 0 <= i < addrs.len() ==> (#[trigger] ring_of(addrs)[i]).1.leader == Some(addrs[0]),
        addrs.len() == 1 ==> ring_of(addrs)[0].1 == (Role { leader: None, im_leader: false }),
        addrs.len() >= 2 ==> led_by_first(ring_of(addrs)),
    decreases addrs.len(),
{
    let n = addrs.len();
    if n > 0 {
        let d = addrs.drop_last();
        lemma_single_leader(d);
        let ring = ring_of(d);
        let j = addrs.last();
        let none = Role { leader: None, im_leader: false };
        let r = ring_of(addrs);
        assert(r == join_ring(ring, j));
        if n == 1 {
            assert(ring =~= Seq::<(Addr, Role)>::empty());
            assert(deliver(ring, none) == (ring, none));
            assert(r =~= seq![(j, none)]);
        } else if n == 2 {
            assert(ring.len() == 1);
            assert(ring[0].1 == none);
            let a0 = ring[0].0;
            assert(ring.drop_last() =~= Seq::<(Addr, Role)>::empty());
            assert(deliver(ring.drop_last(), none) == (ring.drop_last(), none));
            assert(ring.last() == ring[0]);
            assert(r =~= seq![(a0, Role { leader: Some(a0), im_leader: true }), (j, Role { leader: Some(a0), im_leader: false })]);
            assert(a0 == addrs[0]);
            assert(led_by_first(r));
        } else {
            assert(led_by_first(ring));
            assert forall|i: int| 1 <= i < ring.len() implies #[trigger] ring[i].0 != ring[0].0 by {
                assert(ring[i].0 == d[i] && ring[0].0 == d[0]);
            }
            lemma_deliver_led(ring, ring.len() as int);
            assert(ring.subrange(0, ring.len() as int) == ring);
            assert(ring[0].0 == addrs[0]);
            assert forall|i: int| 0 <= i < n implies (#[trigger] r[i]).0 == addrs[i] by {
                if i < n - 1 {
                    assert(r[i] == ring[i]);
                    assert(d[i] == addrs[i]);
                }
            }
            assert forall|i: int| 1 <= i < r.len() implies #[trigger] r[i].1 == (Role { leader: Some(r[0].0), im_leader: false }) by {
                if i < n - 1 {
                    assert(r[i] == ring[i]);
                }
            }
            assert(led_by_first(r));
        }
    }
}

} // verus!
